//! What holds of the answers that a node gets.

use crate::address::SocketAddr;
use crate::messages::{MessageTypeView, MessageView, ResponseView};
use crate::node::NodeView;
use crate::query::{is_value, QueryView};
use crate::response::{EventView, ResponseMessageView, ResponseSender, ResponseValueView};
use crate::seqs::{
    distinct_keys, first_index, lemma_filter_distinct, lemma_filter_members, lemma_first_index,
    lemma_first_index_is,
};
use crate::socket::{has_tid, not_timed_out, InflightRequest, SocketView};
use crate::state::{peer_values, query_expecting, store_expecting, tell_all, RpcView};
use vstd::prelude::*;

verus! {

/// What a read-only node answers changes nothing.
pub proof fn law_read_only_nodes_are_ignored(
    node: RpcView,
    from: SocketAddr,
    message: MessageView,
    now: u64,
)
    requires
        message.read_only,
    ensures
        node.handle_response(from, message, now) == node,
        node.add_node(message, from, now) == node,
{
}

/// An answer that neither a query nor a store query waits for changes nothing.
pub proof fn law_unexpected_answers_are_ignored(
    node: RpcView,
    from: SocketAddr,
    message: MessageView,
    now: u64,
)
    requires
        forall|i: int|
            0 <= i < node.store_queries.len() ==> !(#[trigger] node.store_queries[i]).expects(
                message.transaction_id,
            ),
        forall|i: int|
            0 <= i < node.queries.len() ==> !(#[trigger] node.queries[i]).expects(
                message.transaction_id,
            ),
    ensures
        node.handle_response(from, message, now) == node,
{
    let tid = message.transaction_id;
    lemma_first_index(node.store_queries, store_expecting(tid));
    lemma_first_index(node.queries, query_expecting(tid));
}

/// An answer that a store query waits for is the store query's alone: no query hears of it, and
/// nobody is told. It counts as a success where it is a ping response, and only there.
pub proof fn law_store_queries_come_first(
    node: RpcView,
    from: SocketAddr,
    message: MessageView,
    now: u64,
    i: int,
)
    requires
        !message.read_only,
        0 <= i < node.store_queries.len(),
        node.store_queries[i].expects(message.transaction_id),
        forall|j: int|
            0 <= j < i ==> !(#[trigger] node.store_queries[j]).expects(message.transaction_id),
    ensures
        ({
            let after = node.handle_response(from, message, now);
            let stored_at = node.store_queries[i].stored_at;
            &&& after == RpcView { store_queries: after.store_queries, ..node }
            &&& after.store_queries.len() == node.store_queries.len()
            &&& after.store_queries[i].inflight.len() == node.store_queries[i].inflight.len() - 1
            &&& after.store_queries[i].stored_at == match message.message_type {
                MessageTypeView::Response(ResponseView::Ping { responder_id }) => stored_at.push(
                    responder_id,
                ),
                _ => stored_at,
            }
            &&& forall|j: int|
                0 <= j < node.store_queries.len() && j != i ==> #[trigger] after.store_queries[j]
                    == node.store_queries[j]
        }),
{
    let tid = message.transaction_id;
    let expecting = store_expecting(tid);
    assert forall|j: int| 0 <= j < i implies !expecting(#[trigger] node.store_queries[j]) by {}
    assert(expecting(node.store_queries[i]));
    lemma_first_index_is(node.store_queries, expecting, i);
    lemma_first_index(node.store_queries[i].inflight, is_value(tid));
}

/// Whether every value that an event hands out is one that a query may pass on.
pub open spec fn hands_out_only(q: QueryView, event: EventView) -> bool {
    match event {
        EventView::Response { message: ResponseMessageView::Value(value), .. } => q.vouches_for(
            value,
        ),
        EventView::Response { .. } => false,
        _ => true,
    }
}

/// What a query tells its receivers of a response, the target stands for: an immutable value that
/// hashes to it, or a mutable item whose signature holds. Whatever else a response claims, no
/// receiver hears of it.
pub proof fn law_only_valid_values_are_passed_on(
    q: QueryView,
    from: SocketAddr,
    message: MessageView,
    now: u64,
)
    ensures
        ({
            let told = q.take_in(from, message, now).1;
            forall|i: int| 0 <= i < told.len() ==> hands_out_only(q, #[trigger] told[i])
        }),
{
    let told = q.take_in(from, message, now).1;
    if let MessageTypeView::Response(
        ResponseView::GetPeers { responder_id, values, .. },
    ) = message.message_type {
        let found = peer_values(NodeView::fresh(responder_id, from, now), values);
        lemma_tell_all_peers(q, found);
    }
}

proof fn lemma_tell_all_peers(q: QueryView, values: Seq<ResponseValueView>)
    requires
        forall|i: int| 0 <= i < values.len() ==> (#[trigger] values[i]) is Peer,
    ensures
        ({
            let told = tell_all(q.senders, values);
            forall|i: int| 0 <= i < told.len() ==> hands_out_only(q, #[trigger] told[i])
        }),
    decreases values.len(),
{
    if values.len() > 0 {
        assert(values.last() is Peer);
        let front = tell_all(q.senders, values.drop_last());
        lemma_tell_all_peers(q, values.drop_last());
        let told = tell_all(q.senders, values);
        assert forall|i: int| 0 <= i < told.len() implies hands_out_only(q, #[trigger] told[i]) by {
            if i < front.len() {
                assert(told[i] == front[i]);
            }
        }
    }
}

/// Every value that a receiver joining a query is told at once is one that the target stands for.
pub proof fn law_only_valid_values_are_replayed(
    q: QueryView,
    sender: Option<ResponseSender>,
)
    requires
        q.wf(),
    ensures
        forall|i: int|
            0 <= i < q.catch_up(sender).len() ==> hands_out_only(
                q,
                #[trigger] q.catch_up(sender)[i],
            ),
{
    if let Some(to) = sender {
        assert forall|i: int| 0 <= i < q.catch_up(sender).len() implies hands_out_only(
            q,
            #[trigger] q.catch_up(sender)[i],
        ) by {
            assert(q.vouches_for(q.responses[i]));
        }
    }
}

/// A response is let through once: the same one again is dropped, as long as no two requests under
/// way share a transaction.
pub proof fn law_a_response_counts_once(
    socket: SocketView,
    message: MessageView,
    from: SocketAddr,
    now: u64,
    later: u64,
)
    requires
        !(message.message_type is Request),
        distinct_keys(socket.inflight, |r: InflightRequest| r.transaction_id),
        socket.receive(message, from, now).1,
    ensures
        !socket.receive(message, from, now).0.receive(message, from, later).1,
{
    let tid = message.transaction_id;
    let keep = not_timed_out(socket.request_timeout, now);
    let purged = socket.without_timed_out(now);
    let index = first_index(purged.inflight, has_tid(tid));
    lemma_filter_distinct(
        socket.inflight,
        |r: InflightRequest| r.transaction_id,
        keep,
    );
    lemma_first_index(purged.inflight, has_tid(tid));
    let after = socket.receive(message, from, now).0;
    assert forall|j: int| 0 <= j < after.inflight.len() implies !has_tid(tid)(
        #[trigger] after.inflight[j],
    ) by {
        if j < index {
            assert(after.inflight[j] == purged.inflight[j]);
        } else {
            assert(after.inflight[j] == purged.inflight[j + 1]);
        }
    }
    let again = after.without_timed_out(later);
    lemma_filter_members(after.inflight, not_timed_out(after.request_timeout, later));
    lemma_first_index(again.inflight, has_tid(tid));
    let at = first_index(again.inflight, has_tid(tid));
    if at < again.inflight.len() {
        assert(after.inflight.contains(again.inflight[at]));
    }
}

/// A response is let through only where a request with its transaction is under way to the address
/// that it comes from.
pub proof fn law_only_the_node_asked_may_answer(
    socket: SocketView,
    message: MessageView,
    from: SocketAddr,
    now: u64,
)
    requires
        !(message.message_type is Request),
        socket.receive(message, from, now).1,
    ensures
        exists|i: int|
            0 <= i < socket.inflight.len() && (#[trigger] socket.inflight[i]).transaction_id
                == message.transaction_id && socket.inflight[i].to == from,
{
    let purged = socket.without_timed_out(now);
    let index = first_index(purged.inflight, has_tid(message.transaction_id));
    lemma_first_index(purged.inflight, has_tid(message.transaction_id));
    lemma_filter_members(socket.inflight, not_timed_out(socket.request_timeout, now));
    assert(socket.inflight.contains(purged.inflight[index]));
}

/// Whether a list holds a transaction at most once.
pub open spec fn at_most_once(tids: Seq<u16>, tid: u16) -> bool {
    forall|a: int, b: int|
        0 <= a < b < tids.len() && #[trigger] tids[a] == tid ==> #[trigger] tids[b] != tid
}

/// Whether at most one query or store query waits for the answer to a transaction, and for one
/// answer only.
pub open spec fn expected_once(node: RpcView, tid: u16) -> bool {
    &&& forall|i: int|
        0 <= i < node.queries.len() ==> at_most_once((#[trigger] node.queries[i]).inflight, tid)
    &&& forall|i: int|
        0 <= i < node.store_queries.len() ==> at_most_once(
            (#[trigger] node.store_queries[i]).inflight,
            tid,
        )
    &&& forall|i: int, j: int|
        0 <= i < j < node.queries.len() && (#[trigger] node.queries[i]).expects(tid) ==> !(
        #[trigger] node.queries[j]).expects(tid)
    &&& forall|i: int, j: int|
        0 <= i < j < node.store_queries.len() && (#[trigger] node.store_queries[i]).expects(tid)
            ==> !(#[trigger] node.store_queries[j]).expects(tid)
    &&& forall|i: int, j: int|
        0 <= i < node.queries.len() && 0 <= j < node.store_queries.len() && (
        #[trigger] node.queries[i]).expects(tid) ==> !(#[trigger] node.store_queries[j]).expects(
            tid,
        )
}

/// Once the one answer to a transaction came, none is waited for.
proof fn lemma_answered_once(tids: Seq<u16>, tid: u16)
    requires
        at_most_once(tids, tid),
    ensures
        ({
            let at = first_index(tids, is_value(tid));
            let left = tids.remove(at);
            &&& 0 <= at
            &&& at < tids.len() ==> first_index(left, is_value(tid)) == left.len()
        }),
{
    let at = first_index(tids, is_value(tid));
    lemma_first_index(tids, is_value(tid));
    if at < tids.len() {
        let left = tids.remove(at);
        assert(tids[at] == tid);
        assert forall|j: int| 0 <= j < left.len() implies !is_value(tid)(#[trigger] left[j]) by {
            if j < at {
                assert(!is_value(tid)(tids[j]));
            } else {
                assert(tids[j + 1] != tid);
            }
        }
        lemma_first_index_is(left, is_value(tid), left.len() as int);
    }
}

/// An answer that comes again changes nothing, whoever sends it and whenever: as long as no
/// transaction is waited for twice, what the first one did is all that is done.
pub proof fn law_a_replayed_answer_changes_nothing(
    node: RpcView,
    message: MessageView,
    from: SocketAddr,
    now: u64,
    again_from: SocketAddr,
    later: u64,
)
    requires
        expected_once(node, message.transaction_id),
    ensures
        node.handle_response(from, message, now).handle_response(again_from, message, later)
            == node.handle_response(from, message, now),
{
    let tid = message.transaction_id;
    let after = node.handle_response(from, message, now);
    let store = first_index(node.store_queries, store_expecting(tid));
    let query = first_index(node.queries, query_expecting(tid));
    lemma_first_index(node.store_queries, store_expecting(tid));
    lemma_first_index(node.queries, query_expecting(tid));
    if !message.read_only {
        if store < node.store_queries.len() {
            let q = node.store_queries[store];
            assert(q.expects(tid));
            lemma_answered_once(q.inflight, tid);
            assert(after.store_queries[store].inflight == q.answered(tid).inflight);
            assert(!after.store_queries[store].expects(tid));
        } else if query < node.queries.len() {
            let q = node.queries[query];
            assert(q.expects(tid));
            lemma_answered_once(q.inflight, tid);
            assert(after.queries[query].inflight == q.answered(tid).inflight);
            assert(!after.queries[query].expects(tid));
        }
        assert forall|i: int| 0 <= i < after.store_queries.len() implies !(
        #[trigger] after.store_queries[i]).expects(tid) by {
            if i != store {
                assert(after.store_queries[i] == node.store_queries[i]);
                if i < store {
                    assert(!store_expecting(tid)(node.store_queries[i]));
                } else {
                    assert(node.store_queries[store].expects(tid));
                }
            }
        }
        assert forall|i: int| 0 <= i < after.queries.len() implies !(
        #[trigger] after.queries[i]).expects(tid) by {
            if store < node.store_queries.len() {
                assert(after.queries[i] == node.queries[i]);
                assert(node.store_queries[store].expects(tid));
            } else if i != query {
                assert(after.queries[i] == node.queries[i]);
                if i < query {
                    assert(!query_expecting(tid)(node.queries[i]));
                } else {
                    assert(node.queries[query].expects(tid));
                }
            }
        }
        law_unexpected_answers_are_ignored(after, again_from, message, later);
    }
}

} // verus!
