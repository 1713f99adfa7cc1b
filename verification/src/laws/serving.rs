//! What holds of a node that answers requests.

use crate::address::SocketAddr;
use crate::cache::{has_key, key_of, other_key, StoredView};
use crate::id::Id;
use crate::integrity::{lemma_put, lemma_touch};
use crate::item::{immutable_target, ItemView};
use crate::messages::{ErrorView, MessageTypeView, MessageView, RequestView, ResponseView};
use crate::peers::{law_add_peer_keeps_invariant, swarm_about, Peer};
use crate::response::{EventView, RequestSender};
use crate::rpc::server::{MAX_SALT_LENGTH, MAX_VALUE_LENGTH};
use crate::seqs::{first_index, lemma_filter_members, lemma_first_index, lemma_first_index_is};
use crate::socket::DatagramView;
use crate::state::{CacheView, RpcView};
use crate::tokens::{token_for, TokensView};
use vstd::prelude::*;

verus! {

/// A reply, as it is sent.
pub open spec fn reply_from(
    node: RpcView,
    to: SocketAddr,
    transaction_id: u16,
    message_type: MessageTypeView,
) -> DatagramView {
    DatagramView {
        to,
        message: MessageView { transaction_id, read_only: node.socket.read_only, message_type },
    }
}

/// Every request is answered at once, with one message, to where it came from and under its own
/// transaction; the answer is never a request.
pub proof fn law_every_request_gets_one_reply(
    node: RpcView,
    from: SocketAddr,
    transaction_id: u16,
    request: RequestView,
)
    ensures
        ({
            let after = node.handle_request(from, transaction_id, request);
            let sent = after.socket.outgoing;
            &&& sent.len() == node.socket.outgoing.len() + 1
            &&& sent.drop_last() == node.socket.outgoing
            &&& sent.last().to == from
            &&& sent.last().message.transaction_id == transaction_id
            &&& !(sent.last().message.message_type is Request)
        }),
{
    let after = node.handle_request(from, transaction_id, request);
    assert(after.socket.outgoing.drop_last() =~= node.socket.outgoing);
}

/// Where a custom handler is set, a request goes to it and to nobody else: the node sends nothing
/// and stores nothing, it only notes the author.
pub proof fn law_custom_handler_gets_requests(
    node: RpcView,
    message: MessageView,
    request: RequestView,
    from: SocketAddr,
    to: RequestSender,
    now: u64,
)
    requires
        message.message_type == MessageTypeView::Request(request),
        node.custom_request_handler == Some(to),
    ensures
        ({
            let after = node.handle_message(message, from, now);
            &&& after.events == node.events.push(
                EventView::Request {
                    to,
                    from,
                    transaction_id: message.transaction_id,
                    request,
                },
            )
            &&& after == RpcView {
                events: after.events,
                routing_table: node.add_node(message, from, now).routing_table,
                ..node
            }
        }),
{
}

/// A token that a node hands out, it accepts from the same host, also after the secret changed
/// once.
pub proof fn law_handed_out_tokens_are_accepted(
    tokens: TokensView,
    to: SocketAddr,
    from: SocketAddr,
    secret: Seq<u8>,
    now: u64,
)
    requires
        to.ip == from.ip,
    ensures
        tokens.accepts(from, token_for(to.ip, tokens.curr_secret)),
        tokens.rotate(secret, now).accepts(from, token_for(to.ip, tokens.curr_secret)),
{
}

/// The token that a request to store something brings.
pub open spec fn brought_token(request: RequestView) -> Option<Seq<u8>> {
    match request {
        RequestView::AnnouncePeer { token, .. } => Some(token),
        RequestView::PutImmutable { token, .. } => Some(token),
        RequestView::PutMutable { token, .. } => Some(token),
        _ => None,
    }
}

/// A request to store something with a token that the node did not hand out is answered with an
/// error, and nothing is stored.
pub proof fn law_bad_tokens_store_nothing(
    node: RpcView,
    from: SocketAddr,
    transaction_id: u16,
    request: RequestView,
)
    requires
        brought_token(request) is Some,
        !node.tokens.accepts(from, brought_token(request)->0),
    ensures
        ({
            let after = node.handle_request(from, transaction_id, request);
            &&& after == RpcView { socket: after.socket, ..node }
            &&& after.socket.outgoing == node.socket.outgoing.push(
                reply_from(
                    node,
                    from,
                    transaction_id,
                    MessageTypeView::Error(ErrorView { code: 203, description: "Bad token"@ }),
                ),
            )
        }),
{
}

/// Using a value changes no value that is found.
pub proof fn lemma_find_after_touch(cache: CacheView, id: Id, other: Id)
    requires
        cache.wf(),
    ensures
        cache.touch(id).find(other) == cache.find(other),
{
    lemma_touch(cache, id);
    let entries = cache.entries;
    let after = cache.touch(id).entries;
    let key = key_of(other);
    lemma_first_index(entries, has_key(key));
    lemma_first_index(after, has_key(key));
    lemma_first_index(entries, has_key(key_of(id)));
    lemma_filter_members(entries, other_key(key_of(id)));
    let at = first_index(after, has_key(key));
    let was = first_index(entries, has_key(key));
    if at < after.len() {
        assert(entries.contains(after[at]));
        let k = choose|k: int| 0 <= k < entries.len() && entries[k] == after[at];
        assert(has_key(key)(entries[k]));
        assert(entries[was].0 == key);
        if k != was {
            let low = if k < was { k } else { was };
            let high = if k < was { was } else { k };
            assert(entries[low].0 != entries[high].0);
        }
    } else if was < entries.len() {
        if key == key_of(id) {
            assert(has_key(key)(after[0]));
        } else if first_index(entries, has_key(key_of(id))) < entries.len() {
            let rest = entries.filter(other_key(key_of(id)));
            assert(other_key(key_of(id))(entries[was]));
            assert(rest.contains(entries[was]));
            let k = choose|k: int| 0 <= k < rest.len() && rest[k] == entries[was];
            assert(after[k + 1] == entries[was]);
            assert(has_key(key)(after[k + 1]));
        }
    }
}

/// A value that was put is found; another value that is found was there before.
pub proof fn lemma_find_after_put(cache: CacheView, id: Id, value: StoredView, other: Id)
    requires
        cache.wf(),
    ensures
        cache.put(id, value).find(id) == Some(value),
        key_of(other) != key_of(id) && cache.put(id, value).find(other) is Some ==> cache.find(
            other,
        ) == cache.put(id, value).find(other),
{
    lemma_put(cache, id, value);
    let entries = cache.entries;
    let after = cache.put(id, value).entries;
    assert(has_key(key_of(id))(after[0]));
    lemma_first_index_is(after, has_key(key_of(id)), 0);
    let key = key_of(other);
    lemma_first_index(entries, has_key(key));
    lemma_first_index(after, has_key(key));
    let at = first_index(after, has_key(key));
    let was = first_index(entries, has_key(key));
    if key != key_of(id) && at < after.len() {
        assert(after[at].0 == key);
        assert(at > 0);
        assert(entries.contains(after[at]));
        let k = choose|k: int| 0 <= k < entries.len() && entries[k] == after[at];
        assert(has_key(key)(entries[k]));
        assert(entries[was].0 == key);
        if k != was {
            let low = if k < was { k } else { was };
            let high = if k < was { was } else { k };
            assert(entries[low].0 != entries[high].0);
        }
    }
}

/// Storing an immutable value and asking for it gives it back: a request to store it that brings a
/// good token, is short enough and names the target that the value stands for is acknowledged, and
/// whoever then asks for the target is answered with the value.
pub proof fn law_stored_immutable_values_are_found(
    node: RpcView,
    from: SocketAddr,
    transaction_id: u16,
    requester_id: Id,
    token: Seq<u8>,
    v: Seq<u8>,
    reader: SocketAddr,
    reader_tid: u16,
    reader_id: Id,
    salt: Option<Seq<u8>>,
)
    requires
        node.wf(),
        node.tokens.accepts(from, token),
        v.len() <= MAX_VALUE_LENGTH,
    ensures
        ({
            let target = immutable_target(v);
            let put = RequestView::PutImmutable { requester_id, target, token, v };
            let get = RequestView::GetValue { requester_id: reader_id, target, seq: None, salt };
            let after = node.handle_request(from, transaction_id, put);
            let answered = after.handle_request(reader, reader_tid, get);
            &&& after.socket.outgoing.last() == reply_from(
                node,
                from,
                transaction_id,
                MessageTypeView::Response(ResponseView::Ping { responder_id: node.id }),
            )
            &&& answered.socket.outgoing.last() == reply_from(
                node,
                reader,
                reader_tid,
                MessageTypeView::Response(
                    ResponseView::GetImmutable {
                        responder_id: node.id,
                        token: node.token(reader),
                        nodes: Some(node.routing_table.closest(target)),
                        v,
                    },
                ),
            )
        }),
{
    let target = immutable_target(v);
    lemma_find_after_put(node.immutable_values, target, StoredView::Immutable(v), target);
}

/// Whether a stored item may be replaced by another, as far as its sequence number goes.
pub open spec fn may_replace(stored: Option<StoredView>, item: ItemView) -> bool {
    match stored {
        Some(StoredView::Mutable(old_item)) => {
            &&& item.cas is None || item.cas == Some(old_item.seq)
            &&& old_item.seq <= item.seq
        },
        _ => true,
    }
}

/// The request that stores a mutable item.
pub open spec fn put_request(requester_id: Id, token: Seq<u8>, item: ItemView) -> RequestView {
    RequestView::PutMutable {
        requester_id,
        target: item.target,
        token,
        v: item.value,
        k: item.key,
        seq: item.seq,
        sig: item.signature,
        salt: item.salt,
        cas: item.cas,
    }
}

/// Storing a mutable item and asking for it gives it back: a request to store it that brings a
/// good token, is short enough, may replace what is there and carries a signature that holds is
/// acknowledged, and whoever then asks for something newer than an older sequence number is
/// answered with the item.
pub proof fn law_stored_mutable_items_are_found(
    node: RpcView,
    from: SocketAddr,
    transaction_id: u16,
    requester_id: Id,
    token: Seq<u8>,
    item: ItemView,
    reader: SocketAddr,
    reader_tid: u16,
    reader_id: Id,
    seq: Option<i64>,
    salt: Option<Seq<u8>>,
)
    requires
        node.wf(),
        node.tokens.accepts(from, token),
        item.value.len() <= MAX_VALUE_LENGTH,
        item.salt is Some ==> item.salt->0.len() <= MAX_SALT_LENGTH,
        may_replace(node.mutable_values.find(item.target), item),
        item.signed(),
        seq is Some || node.immutable_values.find(item.target) is None,
    ensures
        ({
            let get = RequestView::GetValue {
                requester_id: reader_id,
                target: item.target,
                seq,
                salt,
            };
            let put = put_request(requester_id, token, item);
            let after = node.handle_request(from, transaction_id, put);
            let answered = after.handle_request(reader, reader_tid, get);
            let nodes = Some(node.routing_table.closest(item.target));
            &&& after.socket.outgoing.last() == reply_from(
                node,
                from,
                transaction_id,
                MessageTypeView::Response(ResponseView::Ping { responder_id: node.id }),
            )
            &&& answered.socket.outgoing.last() == reply_from(
                node,
                reader,
                reader_tid,
                MessageTypeView::Response(
                    if seq is Some && item.seq <= seq->0 {
                        ResponseView::NoMoreRecentValue {
                            responder_id: node.id,
                            token: node.token(reader),
                            nodes,
                            seq: item.seq,
                        }
                    } else {
                        ResponseView::GetMutable {
                            responder_id: node.id,
                            token: node.token(reader),
                            nodes,
                            v: item.value,
                            k: item.key,
                            seq: item.seq,
                            sig: item.signature,
                        }
                    },
                ),
            )
        }),
{
    lemma_touch(node.mutable_values, item.target);
    lemma_find_after_put(
        node.mutable_values.touch(item.target),
        item.target,
        StoredView::Mutable(item),
        item.target,
    );
    let put = put_request(requester_id, token, item);
    let after = node.handle_request(from, transaction_id, put);
    assert(after.mutable_values.find(item.target) == Some(StoredView::Mutable(item)));
    assert(after.immutable_values == node.immutable_values);
}

/// The sequence number of a stored item never goes back: whatever is asked of a node, an item that
/// it still stores under a target has at least the sequence number of the one that it stored there.
pub proof fn law_sequence_numbers_never_go_back(
    node: RpcView,
    from: SocketAddr,
    transaction_id: u16,
    request: RequestView,
    target: Id,
)
    requires
        node.wf(),
    ensures
        ({
            let after = node.handle_request(from, transaction_id, request);
            match (node.mutable_values.find(target), after.mutable_values.find(target)) {
                (Some(StoredView::Mutable(was)), Some(StoredView::Mutable(is_now))) => was.seq
                    <= is_now.seq,
                _ => true,
            }
        }),
{
    match request {
        RequestView::GetValue { target: asked, .. } => {
            lemma_find_after_touch(node.mutable_values, asked, target);
        },
        RequestView::PutMutable { target: put, v, k, seq, sig, salt, cas, .. } => {
            let item = ItemView { target: put, key: k, seq, value: v, signature: sig, salt, cas };
            lemma_touch(node.mutable_values, put);
            lemma_find_after_touch(node.mutable_values, put, target);
            lemma_find_after_put(
                node.mutable_values.touch(put),
                put,
                StoredView::Mutable(item),
                target,
            );
            if key_of(put) == key_of(target) {
                assert(put == target);
            }
        },
        _ => {},
    }
}

/// Announcing oneself as a peer and asking for the peers gives oneself back: an announcement with
/// a good token is acknowledged, and whoever then asks for the peers of the info hash is told the
/// address that was announced, as the last one. It is the sender's own where it asks for that, and
/// otherwise the named port on the sender's host.
pub proof fn law_announced_peers_are_found(
    node: RpcView,
    from: SocketAddr,
    transaction_id: u16,
    requester_id: Id,
    info_hash: Id,
    port: u16,
    implied_port: Option<bool>,
    token: Seq<u8>,
    reader: SocketAddr,
    reader_tid: u16,
    reader_id: Id,
)
    requires
        node.wf(),
        node.tokens.accepts(from, token),
    ensures
        ({
            let announce = RequestView::AnnouncePeer {
                requester_id,
                info_hash,
                port,
                implied_port,
                token,
            };
            let get = RequestView::GetPeers { requester_id: reader_id, info_hash };
            let address = if implied_port == Some(true) {
                from
            } else {
                SocketAddr { ip: from.ip, port }
            };
            let after = node.handle_request(from, transaction_id, announce);
            let values = after.peers.recent_peers(info_hash);
            &&& values.len() > 0
            &&& values.last() == address
            &&& after.handle_request(reader, reader_tid, get).socket.outgoing.last() == reply_from(
                node,
                reader,
                reader_tid,
                MessageTypeView::Response(
                    ResponseView::GetPeers {
                        responder_id: node.id,
                        token: node.token(reader),
                        values,
                        nodes: Some(node.routing_table.closest(info_hash)),
                    },
                ),
            )
        }),
{
    let address = if implied_port == Some(true) {
        from
    } else {
        SocketAddr { ip: from.ip, port }
    };
    let peer = Peer { id: requester_id, address };
    let peers = node.peers.add_peer(info_hash, peer);
    let about = swarm_about(info_hash);
    law_add_peer_keeps_invariant(node.peers, info_hash, peer);
    let last = peers.swarms.len() - 1;
    assert(peers.swarms[last].info_hash == info_hash);
    assert forall|j: int| 0 <= j < last implies !about(#[trigger] peers.swarms[j]) by {
        assert(peers.swarms[j].info_hash != peers.swarms[last].info_hash);
    }
    lemma_first_index_is(peers.swarms, about, last);
    assert(peers.peers_for(info_hash).last() == peer);
}

} // verus!
