//! What each request is answered with, and what it leaves behind.

use crate::address::SocketAddr;
use crate::cache::{has_key, key_of, other_key, Key, StoredView};
use crate::crypto::signature_holds;
use crate::id::Id;
use crate::item::{immutable_target, signable, ItemView};
use crate::messages::{ErrorView, MessageTypeView, MessageView, RequestView, ResponseView};
use crate::peers::{peer_is, swarm_about, Peer, PeersView};
use crate::seqs::{first_index, lemma_first_index};
use crate::socket::{DatagramView, SocketView};
use crate::state::{CacheView, RpcView};
use crate::tokens::token_for;
use vstd::prelude::*;

verus! {

/// Whether a node sent one reply, to an address and under a transaction, and nothing else of its
/// socket changed.
pub open spec fn replied(
    before: RpcView,
    after: RpcView,
    to: SocketAddr,
    transaction_id: u16,
    message_type: MessageTypeView,
) -> bool {
    after.socket == SocketView {
        outgoing: before.socket.outgoing.push(
            DatagramView {
                to,
                message: MessageView {
                    transaction_id,
                    read_only: before.socket.read_only,
                    message_type,
                },
            },
        ),
        ..before.socket
    }
}

/// Whether a node answered with an error, and nothing else of it changed.
pub open spec fn refused(
    before: RpcView,
    after: RpcView,
    to: SocketAddr,
    transaction_id: u16,
    code: i32,
    description: Seq<char>,
) -> bool {
    &&& replied(
        before,
        after,
        to,
        transaction_id,
        MessageTypeView::Error(ErrorView { code, description }),
    )
    &&& after == RpcView { socket: after.socket, ..before }
}

/// Whether a token is one that a node handed to the host that brings it: under its present secret,
/// or under the one before.
pub open spec fn good_token(node: RpcView, from: SocketAddr, token: Seq<u8>) -> bool {
    ||| token == token_for(from.ip, node.tokens.curr_secret)
    ||| token == token_for(from.ip, node.tokens.prev_secret)
}

/// What a response that is sent by hand is: that response, to that address, under that transaction.
pub proof fn law_responses_go_out_as_given(
    node: RpcView,
    to: SocketAddr,
    transaction_id: u16,
    response: ResponseView,
)
    ensures
        ({
            let after = node.respond(to, transaction_id, response);
            &&& replied(node, after, to, transaction_id, MessageTypeView::Response(response))
            &&& after == RpcView { socket: after.socket, ..node }
        }),
{
}

/// A ping is answered with the node's own identifier, and a request for nodes with the nearest that
/// it knows; neither changes anything else.
pub proof fn law_pings_and_look_ups_are_answered(
    node: RpcView,
    from: SocketAddr,
    transaction_id: u16,
    requester_id: Id,
    target: Id,
)
    ensures
        ({
            let after = node.handle_request(
                from,
                transaction_id,
                RequestView::Ping { requester_id },
            );
            &&& replied(
                node,
                after,
                from,
                transaction_id,
                MessageTypeView::Response(ResponseView::Ping { responder_id: node.id }),
            )
            &&& after == RpcView { socket: after.socket, ..node }
        }),
        ({
            let after = node.handle_request(
                from,
                transaction_id,
                RequestView::FindNode { requester_id, target },
            );
            &&& replied(
                node,
                after,
                from,
                transaction_id,
                MessageTypeView::Response(
                    ResponseView::FindNode {
                        responder_id: node.id,
                        nodes: node.routing_table.closest(target),
                    },
                ),
            )
            &&& after == RpcView { socket: after.socket, ..node }
        }),
{
}

/// A request for peers is answered with a token for the host that asks and the nearest nodes; and,
/// where any announced themselves for the info hash, with the last twenty that did, in order.
pub proof fn law_known_peers_are_named(
    node: RpcView,
    from: SocketAddr,
    transaction_id: u16,
    requester_id: Id,
    info_hash: Id,
    s: int,
)
    requires
        node.wf(),
    ensures
        ({
            let after = node.handle_request(
                from,
                transaction_id,
                RequestView::GetPeers { requester_id, info_hash },
            );
            let token = token_for(from.ip, node.tokens.curr_secret);
            let nodes = Some(node.routing_table.closest(info_hash));
            let swarms = node.peers.swarms;
            let none = MessageTypeView::Response(
                ResponseView::NoValues { responder_id: node.id, token, nodes },
            );
            &&& after == RpcView { socket: after.socket, ..node }
            &&& 0 <= s < swarms.len() && swarms[s].info_hash == info_hash && swarms[s].peers.len()
                > 0 ==> exists|values: Seq<SocketAddr>|
                {
                    let peers = swarms[s].peers;
                    &&& #[trigger] values.len() == if peers.len() < 20 {
                        peers.len()
                    } else {
                        20
                    }
                    &&& forall|j: int|
                        0 <= j < values.len() ==> #[trigger] values[j] == peers[peers.len()
                            - values.len() + j].address
                    &&& replied(
                        node,
                        after,
                        from,
                        transaction_id,
                        MessageTypeView::Response(
                            ResponseView::GetPeers {
                                responder_id: node.id,
                                token,
                                values,
                                nodes,
                            },
                        ),
                    )
                }
            &&& (forall|k: int|
                0 <= k < swarms.len() ==> (#[trigger] swarms[k]).info_hash != info_hash
                    || swarms[k].peers.len() == 0) ==> replied(
                node,
                after,
                from,
                transaction_id,
                none,
            )
        }),
{
    let swarms = node.peers.swarms;
    let about = swarm_about(info_hash);
    let at = first_index(swarms, about);
    lemma_first_index(swarms, about);
    let values = node.peers.recent_peers(info_hash);
    if 0 <= s < swarms.len() && swarms[s].info_hash == info_hash && swarms[s].peers.len() > 0 {
        assert(about(swarms[s]));
        assert(swarms[at].info_hash == info_hash);
        if at < s {
            assert(swarms[at].info_hash != swarms[s].info_hash);
        }
        assert(at == s);
        assert(values.len() > 0);
    }
    if at < swarms.len() {
        assert(swarms[at].info_hash == info_hash);
    }
}

/// What is found in a store of values is what some entry with the key of the identifier holds, and
/// nothing is found where there is none.
pub proof fn law_what_is_found(cache: CacheView, id: Id, value: StoredView)
    requires
        cache.wf(),
    ensures
        cache.find(id) == Some(value) <==> cache.entries.contains(((id.hi, id.lo), value)),
        cache.find(id) is None <==> forall|i: int|
            0 <= i < cache.entries.len() ==> (#[trigger] cache.entries[i]).0 != (id.hi, id.lo),
{
    let key = key_of(id);
    let entries = cache.entries;
    lemma_first_index(entries, has_key(key));
    let at = first_index(entries, has_key(key));
    if at < entries.len() {
        assert(has_key(key)(entries[at]));
        assert(entries[at].0 == key);
    }
    if entries.contains((key, value)) {
        let k = choose|k: int| 0 <= k < entries.len() && entries[k] == (key, value);
        assert(has_key(key)(entries[k]));
        if at < k {
            assert(entries[at].0 != entries[k].0);
        }
    }
    if at == entries.len() {
        assert forall|i: int| 0 <= i < entries.len() implies (#[trigger] entries[i]).0 != (
            id.hi,
            id.lo,
        ) by {
            assert(!has_key(key)(entries[i]));
        }
    }
}

/// A value that is put comes first, in place of what was under its identifier; the others follow in
/// order, as many as there is room for. A value that is used comes first, and the others follow.
pub proof fn law_the_last_used_comes_first(cache: CacheView, id: Id, value: StoredView)
    requires
        cache.wf(),
    ensures
        ({
            let key: Key = (id.hi, id.lo);
            let others = cache.entries.filter(|e: (Key, StoredView)| e.0 != key);
            let all = seq![(key, value)] + others;
            let after = cache.put(id, value);
            let room = cache.capacity as int;
            &&& after.capacity == cache.capacity
            &&& after.entries == if all.len() <= room {
                all
            } else {
                all.take(room)
            }
            &&& cache.touch(id).capacity == cache.capacity
            &&& cache.entries.contains((key, value)) ==> cache.touch(id).entries == all
            &&& (forall|i: int|
                0 <= i < cache.entries.len() ==> (#[trigger] cache.entries[i]).0 != key)
                ==> cache.touch(id) == cache
        }),
{
    let key: Key = (id.hi, id.lo);
    assert(other_key(key) =~= (|e: (Key, StoredView)| e.0 != key));
    law_what_is_found(cache, id, value);
}

/// A request for a value is answered, with a token for the host that asks and the nearest nodes,
/// with the immutable value under the target where there is one and no sequence number is named;
/// otherwise with the mutable item under it where there is one, whole, unless its sequence number
/// is not above the one that is named, of which only the sequence number is then told; otherwise it
/// says that there is none. Nothing changes but which value was used last.
pub proof fn law_known_values_are_given(
    node: RpcView,
    from: SocketAddr,
    transaction_id: u16,
    requester_id: Id,
    target: Id,
    seq: Option<i64>,
    salt: Option<Seq<u8>>,
)
    ensures
        ({
            let after = node.handle_request(
                from,
                transaction_id,
                RequestView::GetValue { requester_id, target, seq, salt },
            );
            let token = token_for(from.ip, node.tokens.curr_secret);
            let nodes = Some(node.routing_table.closest(target));
            let responder_id = node.id;
            let immutable = node.immutable_values.find(target);
            let mutable = node.mutable_values.find(target);
            let response = |response: ResponseView|
                replied(
                    node,
                    after,
                    from,
                    transaction_id,
                    MessageTypeView::Response(response),
                );
            if seq is None && immutable is Some && immutable->0 is Immutable {
                &&& response(
                    ResponseView::GetImmutable {
                        responder_id,
                        token,
                        nodes,
                        v: immutable->0->Immutable_0,
                    },
                )
                &&& after == RpcView {
                    socket: after.socket,
                    immutable_values: node.immutable_values.touch(target),
                    ..node
                }
            } else if mutable is Some && mutable->0 is Mutable {
                let item = mutable->0->Mutable_0;
                &&& after == RpcView {
                    socket: after.socket,
                    mutable_values: node.mutable_values.touch(target),
                    ..node
                }
                &&& if seq is Some && item.seq <= seq->0 {
                    response(
                        ResponseView::NoMoreRecentValue {
                            responder_id,
                            token,
                            nodes,
                            seq: item.seq,
                        },
                    )
                } else {
                    response(
                        ResponseView::GetMutable {
                            responder_id,
                            token,
                            nodes,
                            v: item.value,
                            k: item.key,
                            seq: item.seq,
                            sig: item.signature,
                        },
                    )
                }
            } else {
                &&& response(ResponseView::NoValues { responder_id, token, nodes })
                &&& after == RpcView { socket: after.socket, ..node }
            }
        }),
{
}

/// An announcement with a good token is acknowledged, and its author is a peer for the info hash:
/// at the address that it comes from where it says so, and otherwise on the named port of that
/// host. One without is refused.
pub proof fn law_announcements_need_a_token(
    node: RpcView,
    from: SocketAddr,
    transaction_id: u16,
    requester_id: Id,
    info_hash: Id,
    port: u16,
    implied_port: Option<bool>,
    token: Seq<u8>,
)
    ensures
        ({
            let after = node.handle_request(
                from,
                transaction_id,
                RequestView::AnnouncePeer { requester_id, info_hash, port, implied_port, token },
            );
            let address = if implied_port is Some && implied_port->0 {
                from
            } else {
                SocketAddr { ip: from.ip, port }
            };
            if good_token(node, from, token) {
                &&& replied(
                    node,
                    after,
                    from,
                    transaction_id,
                    MessageTypeView::Response(ResponseView::Ping { responder_id: node.id }),
                )
                &&& after == RpcView {
                    socket: after.socket,
                    peers: node.peers.add_peer(info_hash, Peer { id: requester_id, address }),
                    ..node
                }
            } else {
                refused(node, after, from, transaction_id, 203, "Bad token"@)
            }
        }),
{
}

/// A peer that announces itself is the last one for its info hash; the others for it that are not
/// the same node stay where there is room; and the peers for another info hash stay where there is
/// room for one more, or for this one already.
pub proof fn law_peers_join_their_swarm(
    store: PeersView,
    info_hash: Id,
    peer: Peer,
    other: Id,
    s: int,
    p: int,
)
    requires
        store.wf(),
    ensures
        ({
            let after = store.add_peer(info_hash, peer);
            let known = exists|k: int|
                0 <= k < store.swarms.len() && (#[trigger] store.swarms[k]).info_hash == info_hash;
            &&& after.max_peers == store.max_peers
            &&& after.max_info_hashes == store.max_info_hashes
            &&& after.swarms.len() > 0
            &&& after.swarms.last().info_hash == info_hash
            &&& after.swarms.last().peers.len() > 0
            &&& after.swarms.last().peers.last() == peer
            &&& 0 <= s < store.swarms.len() && store.swarms[s].info_hash == info_hash && 0 <= p
                < store.swarms[s].peers.len() && store.swarms[s].peers[p].id != peer.id
                && store.swarms[s].peers.len() < store.max_peers
                ==> after.swarms.last().peers.contains(store.swarms[s].peers[p])
            &&& 0 <= s < store.swarms.len() && store.swarms[s].info_hash != info_hash && (known
                || store.swarms.len() < store.max_info_hashes) ==> after.swarms.contains(
                store.swarms[s],
            )
        }),
{
    let about = swarm_about(info_hash);
    let at = first_index(store.swarms, about);
    lemma_first_index(store.swarms, about);
    let after = store.add_peer(info_hash, peer);
    let known = exists|k: int|
        0 <= k < store.swarms.len() && (#[trigger] store.swarms[k]).info_hash == info_hash;
    if known {
        let k = choose|k: int|
            0 <= k < store.swarms.len() && (#[trigger] store.swarms[k]).info_hash == info_hash;
        assert(about(store.swarms[k]));
    }
    if at < store.swarms.len() {
        assert(store.swarms[at].info_hash == info_hash);
    }
    if 0 <= s < store.swarms.len() && store.swarms[s].info_hash == info_hash {
        assert(about(store.swarms[s]));
        if at < s {
            assert(store.swarms[at].info_hash != store.swarms[s].info_hash);
        }
        let peers = store.swarms[s].peers;
        let same = first_index(peers, peer_is(peer.id));
        lemma_first_index(peers, peer_is(peer.id));
        if 0 <= p < peers.len() && peers[p].id != peer.id && peers.len() < store.max_peers {
            let list = after.swarms.last().peers;
            if same < peers.len() {
                assert(peer_is(peer.id)(peers[same]));
                if p < same {
                    assert(list[p] == peers[p]);
                } else {
                    assert(list[p - 1] == peers[p]);
                }
            } else {
                assert(list[p] == peers[p]);
            }
        }
    }
    if 0 <= s < store.swarms.len() && store.swarms[s].info_hash != info_hash && (known
        || store.swarms.len() < store.max_info_hashes) {
        if at < store.swarms.len() && s > at {
            assert(after.swarms[s - 1] == store.swarms[s]);
        } else {
            assert(after.swarms[s] == store.swarms[s]);
        }
    }
}

/// An immutable value is stored, and acknowledged, where it comes with a good token, is at most a
/// thousand bytes long and belongs under its target; otherwise it is refused for the first of these
/// that fails.
pub proof fn law_when_immutable_values_are_stored(
    node: RpcView,
    from: SocketAddr,
    transaction_id: u16,
    requester_id: Id,
    target: Id,
    token: Seq<u8>,
    v: Seq<u8>,
)
    ensures
        ({
            let after = node.handle_request(
                from,
                transaction_id,
                RequestView::PutImmutable { requester_id, target, token, v },
            );
            if !good_token(node, from, token) {
                refused(node, after, from, transaction_id, 203, "Bad token"@)
            } else if v.len() > 1000 {
                refused(node, after, from, transaction_id, 205, "Message (v field) too big."@)
            } else if immutable_target(v) != target {
                refused(
                    node,
                    after,
                    from,
                    transaction_id,
                    203,
                    "Target doesn't match the sha1 hash of v field"@,
                )
            } else {
                &&& replied(
                    node,
                    after,
                    from,
                    transaction_id,
                    MessageTypeView::Response(ResponseView::Ping { responder_id: node.id }),
                )
                &&& after == RpcView {
                    socket: after.socket,
                    immutable_values: node.immutable_values.put(target, StoredView::Immutable(v)),
                    ..node
                }
            }
        }),
{
}

/// A mutable item is stored, and acknowledged, where it comes with a good token, is at most a
/// thousand bytes long with a salt of at most 64, may replace what is stored by what it says, has
/// no lower sequence number than that, and carries a signature that holds; otherwise it is refused
/// for the first of these that fails, and what is stored stays.
pub proof fn law_when_mutable_items_are_stored(
    node: RpcView,
    from: SocketAddr,
    transaction_id: u16,
    requester_id: Id,
    token: Seq<u8>,
    item: ItemView,
)
    ensures
        ({
            let after = node.handle_request(
                from,
                transaction_id,
                RequestView::PutMutable {
                    requester_id,
                    target: item.target,
                    token,
                    v: item.value,
                    k: item.key,
                    seq: item.seq,
                    sig: item.signature,
                    salt: item.salt,
                    cas: item.cas,
                },
            );
            let found = node.mutable_values.find(item.target);
            let there = found is Some && found->0 is Mutable;
            let stored = found->0->Mutable_0;
            let used = RpcView {
                mutable_values: node.mutable_values.touch(item.target),
                ..node
            };
            if !good_token(node, from, token) {
                refused(node, after, from, transaction_id, 203, "Bad token"@)
            } else if item.value.len() > 1000 {
                refused(node, after, from, transaction_id, 205, "Message (v field) too big."@)
            } else if item.salt is Some && item.salt->0.len() > 64 {
                refused(node, after, from, transaction_id, 207, "salt (salt field) too big."@)
            } else if there && item.cas is Some && item.cas->0 != stored.seq {
                refused(
                    used,
                    after,
                    from,
                    transaction_id,
                    301,
                    "CAS mismatched, re-read value and try again."@,
                )
            } else if there && item.seq < stored.seq {
                refused(
                    used,
                    after,
                    from,
                    transaction_id,
                    302,
                    "Sequence number less than current"@,
                )
            } else if !signature_holds(
                item.key,
                signable(item.seq, item.value, item.salt),
                item.signature,
            ) {
                refused(used, after, from, transaction_id, 206, "Invalid signature"@)
            } else {
                &&& replied(
                    node,
                    after,
                    from,
                    transaction_id,
                    MessageTypeView::Response(ResponseView::Ping { responder_id: node.id }),
                )
                &&& after == RpcView {
                    socket: after.socket,
                    mutable_values: used.mutable_values.put(
                        item.target,
                        StoredView::Mutable(item),
                    ),
                    ..node
                }
            }
        }),
{
}

} // verus!
