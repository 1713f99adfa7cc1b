//! What holds of storing something at other nodes.

use crate::address::SocketAddr;
use crate::cache::StoredView;
use crate::id::Id;
use crate::integrity::{law_store_keeps_wf, lemma_store_at_target};
use crate::item::ItemView;
use crate::laws::answers::{expected_once, law_unexpected_answers_are_ignored};
use crate::laws::serving::lemma_find_after_touch;
use crate::messages::{MessageTypeView, MessageView, RequestView};
use crate::node::NodeView;
use crate::query::{is_value, StoreQueryView};
use crate::response::ResponseSender;
use crate::seqs::{first_index, lemma_filter_members, lemma_filter_push, lemma_first_index};
use crate::socket::{tid_after, DatagramView, SocketView};
use crate::state::{store_about, store_at, store_expecting, RpcView, StoreView};
use vstd::prelude::*;

verus! {

/// Whether a node handed out a token.
pub open spec fn has_token() -> spec_fn(NodeView) -> bool {
    |n: NodeView| n.token is Some
}

/// The transaction `n` after `tid`.
pub open spec fn tid_later(tid: u16, n: nat) -> u16
    decreases n,
{
    if n == 0 {
        tid
    } else {
        tid_after(tid_later(tid, (n - 1) as nat))
    }
}

/// The request by which a node is asked to store something, as it is sent.
pub open spec fn store_datagram(
    socket: SocketView,
    what: StoreView,
    requester_id: Id,
    target: Id,
    node: NodeView,
    n: nat,
) -> DatagramView {
    DatagramView {
        to: node.address,
        message: MessageView {
            transaction_id: tid_later(socket.next_tid, n),
            read_only: socket.read_only,
            message_type: MessageTypeView::Request(
                what.request(requester_id, target, node.token->0),
            ),
        },
    }
}

/// Exactly the nodes that handed out a token are asked to store something, in order, each with its
/// own token and under a transaction that the store query waits for.
pub proof fn law_store_asks_nodes_with_tokens(
    socket: SocketView,
    target: Id,
    sender: ResponseSender,
    nodes: Seq<NodeView>,
    what: StoreView,
    requester_id: Id,
    now: u64,
)
    ensures
        ({
            let fresh = StoreQueryView::fresh(target, sender);
            let (q, sent) = store_at(fresh, socket, nodes, what, requester_id, now);
            let asked = nodes.filter(has_token());
            &&& q.closest_nodes == asked
            &&& q.stored_at.len() == 0
            &&& q.inflight == Seq::new(asked.len(), |i: int| tid_later(socket.next_tid, i as nat))
            &&& sent.outgoing == socket.outgoing + Seq::new(
                asked.len(),
                |i: int|
                    store_datagram(socket, what, requester_id, target, asked[i], i as nat),
            )
            &&& sent.next_tid == tid_later(socket.next_tid, asked.len())
            &&& sent.read_only == socket.read_only
        }),
    decreases nodes.len(),
{
    let fresh = StoreQueryView::fresh(target, sender);
    let (q, sent) = store_at(fresh, socket, nodes, what, requester_id, now);
    let asked = nodes.filter(has_token());
    let tids = Seq::new(asked.len(), |i: int| tid_later(socket.next_tid, i as nat));
    let out = Seq::new(
        asked.len(),
        |i: int| store_datagram(socket, what, requester_id, target, asked[i], i as nat),
    );
    reveal(Seq::filter);
    lemma_store_at_target(fresh, socket, nodes, what, requester_id, now);
    if nodes.len() > 0 {
        let front = nodes.drop_last();
        law_store_asks_nodes_with_tokens(socket, target, sender, front, what, requester_id, now);
        lemma_store_at_target(fresh, socket, front, what, requester_id, now);
        let before = front.filter(has_token());
        lemma_filter_push(front, has_token(), nodes.last());
        assert(front.push(nodes.last()) =~= nodes);
        let earlier = Seq::new(
            before.len(),
            |i: int| store_datagram(socket, what, requester_id, target, before[i], i as nat),
        );
        if nodes.last().token is Some {
            assert(asked == before.push(nodes.last()));
            assert(out.drop_last() =~= earlier);
            assert(q.inflight =~= tids);
            assert(sent.outgoing =~= socket.outgoing + out);
        } else {
            assert(asked == before);
            assert(out =~= earlier);
        }
    } else {
        assert(asked.len() == 0);
        assert(q.inflight =~= tids);
        assert(q.closest_nodes =~= asked);
        assert(sent.outgoing =~= socket.outgoing + out);
    }
}

/// What each node is asked to store, field by field: to each node that handed out a token, and to
/// no other, one request goes out, in order, in the node's own name and with that node's own token.
/// For a peer it names the info hash and the port, or says that the port is the one it is sent
/// from; for an immutable value it carries the target and the value; for a mutable item it carries
/// the target, the value, the key, the sequence number, the signature, the salt and what it may
/// replace, each as the item has it.
pub proof fn law_stored_things_go_out_whole(
    node: RpcView,
    target: Id,
    nodes: Seq<NodeView>,
    what: StoreView,
    sender: ResponseSender,
    now: u64,
    i: int,
)
    ensures
        ({
            let after = node.store(target, nodes, what, sender, now);
            let asked = nodes.filter(has_token());
            let sent = node.socket.outgoing.len() as int;
            &&& after.socket.outgoing.len() == sent + asked.len()
            &&& after.socket.outgoing.take(sent) == node.socket.outgoing
            &&& 0 <= i < asked.len() ==> {
                let datagram = after.socket.outgoing[sent + i];
                let own = node.id;
                &&& asked[i].token is Some
                &&& datagram.to == asked[i].address
                &&& datagram.message.transaction_id == (node.socket.next_tid + i) % 0x1_0000
                &&& datagram.message.read_only == node.socket.read_only
                &&& match (what, datagram.message.message_type) {
                    (
                        StoreView::Peer { port: wanted },
                        MessageTypeView::Request(
                            RequestView::AnnouncePeer {
                                requester_id,
                                info_hash,
                                port,
                                implied_port,
                                token,
                            },
                        ),
                    ) => {
                        &&& requester_id == own
                        &&& info_hash == target
                        &&& wanted is Some ==> port == wanted->0 && implied_port is None
                        &&& wanted is None ==> port == 0 && implied_port == Some(true)
                        &&& Some(token) == asked[i].token
                    },
                    (
                        StoreView::Immutable { value },
                        MessageTypeView::Request(
                            RequestView::PutImmutable { requester_id, target: under, token, v },
                        ),
                    ) => {
                        &&& requester_id == own
                        &&& under == target
                        &&& Some(token) == asked[i].token
                        &&& v == value
                    },
                    (
                        StoreView::Mutable { item },
                        MessageTypeView::Request(
                            RequestView::PutMutable {
                                requester_id,
                                target: under,
                                token,
                                v,
                                k,
                                seq,
                                sig,
                                salt,
                                cas,
                            },
                        ),
                    ) => {
                        &&& requester_id == own
                        &&& under == target
                        &&& Some(token) == asked[i].token
                        &&& v == item.value
                        &&& k == item.key
                        &&& seq == item.seq
                        &&& sig == item.signature
                        &&& salt == item.salt
                        &&& cas == item.cas
                    },
                    _ => false,
                }
            }
        }),
{
    law_store_asks_nodes_with_tokens(node.socket, target, sender, nodes, what, node.id, now);
    let after = node.store(target, nodes, what, sender, now);
    let asked = nodes.filter(has_token());
    let sent = node.socket.outgoing.len() as int;
    assert(after.socket.outgoing.take(sent) =~= node.socket.outgoing);
    if 0 <= i < asked.len() {
        lemma_filter_members(nodes, has_token());
        assert(has_token()(asked[i]));
        lemma_tid_later(node.socket.next_tid, i as nat);
        assert(after.socket.outgoing[sent + i] == store_datagram(
            node.socket,
            what,
            node.id,
            target,
            asked[i],
            i as nat,
        ));
    }
}

/// The token that a request to store something carries.
pub open spec fn carried_token(message_type: MessageTypeView) -> Option<Seq<u8>> {
    match message_type {
        MessageTypeView::Request(RequestView::AnnouncePeer { token, .. }) => Some(token),
        MessageTypeView::Request(RequestView::PutImmutable { token, .. }) => Some(token),
        MessageTypeView::Request(RequestView::PutMutable { token, .. }) => Some(token),
        _ => None,
    }
}

/// A datagram is for a node that handed out a token, and carries that token.
pub open spec fn uses_the_token_of(datagram: DatagramView, asked: NodeView) -> bool {
    &&& asked.token is Some
    &&& datagram.to == asked.address
    &&& carried_token(datagram.message.message_type) == asked.token
}

proof fn lemma_nth_uses_its_token(
    node: RpcView,
    target: Id,
    nodes: Seq<NodeView>,
    what: StoreView,
    sender: ResponseSender,
    now: u64,
    i: int,
)
    requires
        0 <= i < nodes.filter(has_token()).len(),
    ensures
        uses_the_token_of(
            node.store(target, nodes, what, sender, now).socket.outgoing[
                node.socket.outgoing.len() + i],
            nodes.filter(has_token())[i],
        ),
{
    law_stored_things_go_out_whole(node, target, nodes, what, sender, now, i);
}

/// A node of a list that handed out a token is sent a request that carries its token, and a
/// request that goes out is for a node of the list and carries the token of that node.
pub proof fn law_each_token_is_used(
    node: RpcView,
    target: Id,
    nodes: Seq<NodeView>,
    what: StoreView,
    sender: ResponseSender,
    now: u64,
    j: int,
    d: int,
)
    ensures
        ({
            let sent = node.socket.outgoing.len() as int;
            let out = node.store(target, nodes, what, sender, now).socket.outgoing;
            &&& 0 <= j < nodes.len() && nodes[j].token is Some ==> exists|e: int|
                sent <= e < out.len() && #[trigger] uses_the_token_of(out[e], nodes[j])
            &&& sent <= d < out.len() ==> exists|k: int|
                0 <= k < nodes.len() && #[trigger] uses_the_token_of(out[d], nodes[k])
        }),
{
    let sent = node.socket.outgoing.len() as int;
    let out = node.store(target, nodes, what, sender, now).socket.outgoing;
    let asked = nodes.filter(has_token());
    assert(out.len() == sent + asked.len()) by {
        law_stored_things_go_out_whole(node, target, nodes, what, sender, now, -1);
    }
    if 0 <= j < nodes.len() && nodes[j].token is Some {
        assert(asked.contains(nodes[j])) by {
            lemma_filter_members(nodes, has_token());
            assert(has_token()(nodes[j]));
        }
        let i = choose|i: int| 0 <= i < asked.len() && asked[i] == nodes[j];
        lemma_nth_uses_its_token(node, target, nodes, what, sender, now, i);
        assert(uses_the_token_of(out[sent + i], nodes[j]));
    }
    if sent <= d < out.len() {
        lemma_nth_uses_its_token(node, target, nodes, what, sender, now, d - sent);
        assert(nodes.contains(asked[d - sent])) by {
            lemma_filter_members(nodes, has_token());
            assert(asked.contains(asked[d - sent]));
        }
        let k = choose|k: int| 0 <= k < nodes.len() && nodes[k] == asked[d - sent];
        assert(uses_the_token_of(out[d], nodes[k]));
    }
}

/// Transactions follow one another, and begin again after the last of 16 bits.
proof fn lemma_tid_later(tid: u16, n: nat)
    ensures
        tid_later(tid, n) == (tid + n) % 0x1_0000,
    decreases n,
{
    if n > 0 {
        lemma_tid_later(tid, (n - 1) as nat);
    }
}

/// The store query that storing something starts is about its target, will tell its receiver, has
/// no node yet that stored it, names the nodes that were asked, and waits for the answer of each;
/// it is the only one under its target. All others stay, and nothing else of the node changes but
/// its socket.
pub proof fn law_a_store_query_waits_for_all_it_asked(
    node: RpcView,
    target: Id,
    nodes: Seq<NodeView>,
    what: StoreView,
    sender: ResponseSender,
    now: u64,
)
    requires
        node.wf(),
    ensures
        ({
            let after = node.store(target, nodes, what, sender, now);
            let asked = nodes.filter(has_token());
            &&& exists|k: int|
                0 <= k < after.store_queries.len() && (#[trigger] after.store_queries[k]).target
                    == target
            &&& forall|k: int|
                0 <= k < after.store_queries.len() && (#[trigger] after.store_queries[k]).target
                    == target ==> {
                    let q = after.store_queries[k];
                    &&& q.sender == sender
                    &&& q.stored_at.len() == 0
                    &&& q.closest_nodes == asked
                    &&& q.inflight.len() == asked.len()
                    &&& forall|i: int|
                        0 <= i < q.inflight.len() ==> (#[trigger] q.inflight[i]) == (
                        node.socket.next_tid + i) % 0x1_0000
                }
            &&& forall|k: int|
                0 <= k < node.store_queries.len() && (#[trigger] node.store_queries[k]).target
                    != target ==> after.store_queries.contains(node.store_queries[k])
            &&& forall|k: int|
                0 <= k < after.store_queries.len() && (#[trigger] after.store_queries[k]).target
                    != target ==> node.store_queries.contains(after.store_queries[k])
            &&& after == RpcView {
                store_queries: after.store_queries,
                socket: after.socket,
                ..node
            }
        }),
{
    let after = node.store(target, nodes, what, sender, now);
    let asked = nodes.filter(has_token());
    let at = first_index(node.store_queries, store_about(target));
    lemma_first_index(node.store_queries, store_about(target));
    law_store_keeps_wf(node, target, nodes, what, sender, now);
    law_store_asks_nodes_with_tokens(node.socket, target, sender, nodes, what, node.id, now);
    let fresh = StoreQueryView::fresh(target, sender);
    lemma_store_at_target(fresh, node.socket, nodes, what, node.id, now);
    let q = after.store_queries[at];
    assert(q.target == target);
    assert forall|i: int| 0 <= i < q.inflight.len() implies (#[trigger] q.inflight[i]) == (
    node.socket.next_tid + i) % 0x1_0000 by {
        lemma_tid_later(node.socket.next_tid, i as nat);
    }
    assert forall|k: int|
        0 <= k < after.store_queries.len() && (#[trigger] after.store_queries[k]).target
            == target implies k == at by {
        if k < at {
            assert(after.store_queries[k].target != after.store_queries[at].target);
        } else if at < k {
            assert(after.store_queries[at].target != after.store_queries[k].target);
        }
    }
    assert forall|k: int|
        0 <= k < node.store_queries.len() && (#[trigger] node.store_queries[k]).target
            != target implies after.store_queries.contains(node.store_queries[k]) by {
        assert(after.store_queries[k] == node.store_queries[k]);
    }
    assert forall|k: int|
        0 <= k < after.store_queries.len() && (#[trigger] after.store_queries[k]).target
            != target implies node.store_queries.contains(after.store_queries[k]) by {
        assert(k != at);
        assert(after.store_queries[k] == node.store_queries[k]);
    }
}

/// A compare-and-swap that a node sends is respected by the node that gets it: where that one
/// stores an item under the target with another sequence number than the one to be replaced, its
/// answer is an error, and the item that it stores stays.
pub proof fn law_a_missed_swap_is_refused(
    node: RpcView,
    item: ItemView,
    nodes: Seq<NodeView>,
    sender: ResponseSender,
    now: u64,
    i: int,
    server: RpcView,
    from: SocketAddr,
    stored: ItemView,
)
    requires
        server.wf(),
        0 <= i < nodes.filter(has_token()).len(),
        nodes.filter(has_token())[i].token == Some(server.token(from)),
        item.value.len() <= 1000,
        item.salt is Some ==> item.salt->0.len() <= 64,
        server.mutable_values.find(item.target) == Some(StoredView::Mutable(stored)),
        item.cas is Some,
        item.cas->0 != stored.seq,
    ensures
        ({
            let sent = node.store(
                item.target,
                nodes,
                StoreView::Mutable { item },
                sender,
                now,
            ).socket.outgoing[node.socket.outgoing.len() + i].message;
            &&& sent.message_type is Request
            &&& {
                let after = server.handle_request(
                    from,
                    sent.transaction_id,
                    sent.message_type->Request_0,
                );
                let answer = after.socket.outgoing.last();
                &&& after.socket.outgoing.len() == server.socket.outgoing.len() + 1
                &&& answer.to == from
                &&& answer.message.transaction_id == sent.transaction_id
                &&& answer.message.message_type matches MessageTypeView::Error(error)
                    && error.code == 301
                &&& after.mutable_values.find(item.target) == Some(StoredView::Mutable(stored))
            }
        }),
{
    law_stored_things_go_out_whole(
        node,
        item.target,
        nodes,
        StoreView::Mutable { item },
        sender,
        now,
        i,
    );
    lemma_find_after_touch(server.mutable_values, item.target, item.target);
}

/// Storing something under a target takes the place of an earlier store query under it, and leaves
/// the others as they are.
pub proof fn law_store_replaces(
    node: RpcView,
    target: Id,
    nodes: Seq<NodeView>,
    what: StoreView,
    sender: ResponseSender,
    now: u64,
)
    requires
        node.wf(),
    ensures
        ({
            let after = node.store(target, nodes, what, sender, now);
            let at = first_index(node.store_queries, store_about(target));
            &&& at < after.store_queries.len()
            &&& after.store_queries[at].target == target
            &&& after.store_queries[at].sender == sender
            &&& after.store_queries[at].closest_nodes == nodes.filter(has_token())
            &&& forall|i: int|
                0 <= i < node.store_queries.len() && node.store_queries[i].target != target
                    ==> #[trigger] after.store_queries[i] == node.store_queries[i]
            &&& after == RpcView {
                store_queries: after.store_queries,
                socket: after.socket,
                ..node
            }
        }),
{
    lemma_first_index(node.store_queries, store_about(target));
    law_store_asks_nodes_with_tokens(node.socket, target, sender, nodes, what, node.id, now);
    let fresh = StoreQueryView::fresh(target, sender);
    lemma_store_at_target(fresh, node.socket, nodes, what, node.id, now);
}

/// Storing something under a target leaves no store query that waits for a transaction of before,
/// where none under another target did and the transaction has not come round again.
proof fn lemma_store_expects_no_more(
    node: RpcView,
    target: Id,
    nodes: Seq<NodeView>,
    what: StoreView,
    sender: ResponseSender,
    now: u64,
    tid: u16,
)
    requires
        node.wf(),
        forall|i: int|
            0 <= i < node.store_queries.len() && (#[trigger] node.store_queries[i]).target != target
                ==> !node.store_queries[i].expects(tid),
        forall|n: nat|
            n < nodes.filter(has_token()).len() ==> #[trigger] tid_later(node.socket.next_tid, n)
                != tid,
    ensures
        ({
            let after = node.store(target, nodes, what, sender, now);
            forall|i: int|
                0 <= i < after.store_queries.len() ==> !(#[trigger] after.store_queries[i]).expects(
                    tid,
                )
        }),
{
    let after = node.store(target, nodes, what, sender, now);
    let at = first_index(node.store_queries, store_about(target));
    lemma_first_index(node.store_queries, store_about(target));
    law_store_asks_nodes_with_tokens(node.socket, target, sender, nodes, what, node.id, now);
    let fresh = StoreQueryView::fresh(target, sender);
    lemma_store_at_target(fresh, node.socket, nodes, what, node.id, now);
    let q = after.store_queries[at];
    lemma_first_index(q.inflight, is_value(tid));
    assert(!q.expects(tid)) by {
        let k = first_index(q.inflight, is_value(tid));
        if k < q.inflight.len() {
            assert(q.inflight[k] == tid_later(node.socket.next_tid, k as nat));
        }
    }
    assert forall|j: int| 0 <= j < after.store_queries.len() implies !(
    #[trigger] after.store_queries[j]).expects(tid) by {
        if j != at {
            assert(after.store_queries[j] == node.store_queries[j]);
            if j < at {
                assert(!store_about(target)(node.store_queries[j]));
            } else {
                assert(node.store_queries[at].target != node.store_queries[j].target);
            }
        }
    }
}

/// An answer to what was asked of nodes for an earlier store query under a target counts for no
/// store query once another took its place, where none under another target waits for it and its
/// transaction has not come round again.
pub proof fn law_older_answers_count_for_no_store_query(
    node: RpcView,
    target: Id,
    nodes: Seq<NodeView>,
    what: StoreView,
    sender: ResponseSender,
    now: u64,
    message: MessageView,
    from: SocketAddr,
    later: u64,
)
    requires
        node.wf(),
        forall|i: int|
            0 <= i < node.store_queries.len() && (#[trigger] node.store_queries[i]).target != target
                ==> !node.store_queries[i].expects(message.transaction_id),
        forall|n: nat|
            n < nodes.filter(has_token()).len() ==> #[trigger] tid_later(node.socket.next_tid, n)
                != message.transaction_id,
    ensures
        ({
            let after = node.store(target, nodes, what, sender, now);
            after.handle_response(from, message, later).store_queries == after.store_queries
        }),
{
    let tid = message.transaction_id;
    lemma_store_expects_no_more(node, target, nodes, what, sender, now, tid);
    let after = node.store(target, nodes, what, sender, now);
    lemma_first_index(after.store_queries, store_expecting(tid));
}

/// What was asked of nodes for an earlier store query under a target is forgotten when another
/// takes its place: an answer to it changes nothing, unless its transaction has come round again.
pub proof fn law_replaced_store_queries_hear_nothing(
    node: RpcView,
    target: Id,
    nodes: Seq<NodeView>,
    what: StoreView,
    sender: ResponseSender,
    now: u64,
    message: MessageView,
    from: SocketAddr,
    later: u64,
)
    requires
        node.wf(),
        expected_once(node, message.transaction_id),
        exists|i: int|
            0 <= i < node.store_queries.len() && (#[trigger] node.store_queries[i]).target == target
                && node.store_queries[i].expects(message.transaction_id),
        forall|n: nat|
            n < nodes.filter(has_token()).len() ==> #[trigger] tid_later(node.socket.next_tid, n)
                != message.transaction_id,
    ensures
        ({
            let after = node.store(target, nodes, what, sender, now);
            after.handle_response(from, message, later) == after
        }),
{
    let tid = message.transaction_id;
    let after = node.store(target, nodes, what, sender, now);
    let at = choose|i: int|
        0 <= i < node.store_queries.len() && (#[trigger] node.store_queries[i]).target == target
            && node.store_queries[i].expects(tid);
    assert forall|i: int|
        0 <= i < node.store_queries.len() && (
        #[trigger] node.store_queries[i]).target != target implies !node.store_queries[i].expects(
    tid) by {
        assert(node.store_queries[at].expects(tid));
    }
    lemma_store_expects_no_more(node, target, nodes, what, sender, now, tid);
    assert forall|j: int| 0 <= j < after.queries.len() implies !(
    #[trigger] after.queries[j]).expects(tid) by {
        assert(after.queries[j] == node.queries[j]);
        assert(node.store_queries[at].expects(tid));
    }
    law_unexpected_answers_are_ignored(after, from, message, later);
}

/// A store query that nobody was asked for is over at the next step, and its receiver then hears
/// that nothing was stored.
pub proof fn law_store_at_nobody_ends(
    socket: SocketView,
    target: Id,
    sender: ResponseSender,
    nodes: Seq<NodeView>,
    what: StoreView,
    requester_id: Id,
    now: u64,
)
    requires
        nodes.filter(has_token()).len() == 0,
    ensures
        ({
            let fresh = StoreQueryView::fresh(target, sender);
            let (q, sent) = store_at(fresh, socket, nodes, what, requester_id, now);
            let (after, told) = q.tick(sent);
            &&& sent.outgoing == socket.outgoing
            &&& after.is_done()
            &&& told == seq![fresh.stored_event()]
        }),
{
    law_store_asks_nodes_with_tokens(socket, target, sender, nodes, what, requester_id, now);
    let fresh = StoreQueryView::fresh(target, sender);
    lemma_store_at_target(fresh, socket, nodes, what, requester_id, now);
    let (q, sent) = store_at(fresh, socket, nodes, what, requester_id, now);
    reveal(Seq::filter);
    assert(sent.outgoing =~= socket.outgoing);
    let (after, told) = q.tick(sent);
    assert(q.closest_nodes =~= fresh.closest_nodes);
    assert(q.stored_at =~= fresh.stored_at);
    assert(after.is_done());
    assert(after.stored_event() == fresh.stored_event());
}

} // verus!
