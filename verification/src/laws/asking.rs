//! What holds of queries: of asking for the same thing twice, and of walking the network.

use crate::address::SocketAddr;
use crate::clock::{spec_elapsed, MILLISECOND};
use crate::id::Id;
use crate::integrity::{lemma_empty_table, lemma_visit_all};
use crate::messages::{MessageTypeView, MessageView, RequestView, ResponseView};
use crate::node::NodeView;
use crate::query::{addresses, awaited_by, broadcast_to, replay, QueryView, StoreQueryView};
use crate::response::{
    value_event, EventView, ResponseMessageView, ResponseSender, ResponseValueView,
};
use crate::seqs::{first_index, lemma_filter_members, lemma_filter_push, lemma_first_index};
use crate::socket::{has_tid, not_timed_out, SocketView};
use crate::state::{peer_values, query_about, tell_all, RpcView};
use vstd::prelude::*;

verus! {

// === Asking for the same thing twice ===

/// While a query for a target is under way, asking for it again sends nothing and starts nothing:
/// the receiver joins the query and is told every value seen so far, in order.
pub proof fn law_asking_again_joins(
    node: RpcView,
    target: Id,
    request: RequestView,
    sender: ResponseSender,
    found: Seq<SocketAddr>,
    now: u64,
)
    requires
        node.has_query(target),
    ensures
        ({
            let index = first_index(node.queries, query_about(target));
            let after = node.query(target, request, Some(sender), found, now);
            &&& after.socket == node.socket
            &&& after.queries.len() == node.queries.len()
            &&& after.queries[index].senders == node.queries[index].senders.push(sender)
            &&& after.queries[index].responses == node.queries[index].responses
            &&& after.events == node.events + replay(sender, node.queries[index].responses)
            &&& after == RpcView { queries: after.queries, events: after.events, ..node }
            &&& forall|i: int|
                0 <= i < node.queries.len() && i != index ==> #[trigger] after.queries[i]
                    == node.queries[i]
        }),
{
    lemma_first_index(node.queries, query_about(target));
}

/// Whether an event is one for a receiver.
pub open spec fn is_for(to: ResponseSender) -> spec_fn(EventView) -> bool {
    |e: EventView| e matches EventView::Response { to: t, .. } && t == to
}

proof fn lemma_replay_is_for(to: ResponseSender, values: Seq<ResponseValueView>)
    ensures
        replay(to, values).filter(is_for(to)) == replay(to, values),
    decreases values.len(),
{
    reveal(Seq::filter);
    if values.len() > 0 {
        let front = values.drop_last();
        lemma_replay_is_for(to, front);
        assert(replay(to, values).drop_last() =~= replay(to, front));
        assert(replay(to, values) =~= replay(to, front).push(value_event(to, values.last())));
    } else {
        assert(replay(to, values) =~= Seq::empty());
    }
}

proof fn lemma_broadcast_not_for(
    senders: Seq<ResponseSender>,
    message: ResponseMessageView,
    to: ResponseSender,
)
    requires
        !senders.contains(to),
    ensures
        broadcast_to(senders, message).filter(is_for(to)) == Seq::<EventView>::empty(),
    decreases senders.len(),
{
    reveal(Seq::filter);
    if senders.len() > 0 {
        let front = senders.drop_last();
        assert forall|i: int| 0 <= i < front.len() implies front[i] != to by {
            assert(front[i] == senders[i]);
        }
        lemma_broadcast_not_for(front, message, to);
        assert(senders.last() != to);
        assert(broadcast_to(senders, message).drop_last() =~= broadcast_to(front, message));
    }
}

/// A receiver that joins late hears what one that was there from the start heard: what it is told
/// at once and what it is told of the next value are together every value of the query, each
/// once, in order.
pub proof fn law_late_receiver_misses_nothing(
    q: QueryView,
    sender: ResponseSender,
    value: ResponseValueView,
)
    requires
        !q.senders.contains(sender),
    ensures
        ({
            let joined = q.add_sender(Some(sender));
            let told = q.catch_up(Some(sender)) + joined.response_events(value);
            told.filter(is_for(sender)) == replay(sender, joined.response(value).responses)
        }),
{
    let joined = q.add_sender(Some(sender));
    let message = ResponseMessageView::Value(value);
    let first = q.catch_up(Some(sender));
    let others = broadcast_to(q.senders, message);
    let own = EventView::Response { to: sender, message };
    assert(joined.response_events(value) =~= others.push(own));
    assert(first + joined.response_events(value) =~= (first + others).push(own));
    lemma_filter_push(first + others, is_for(sender), own);
    Seq::filter_distributes_over_add(first, others, is_for(sender));
    lemma_replay_is_for(sender, q.responses);
    lemma_broadcast_not_for(q.senders, message, sender);
    assert(replay(sender, joined.response(value).responses) =~= replay(sender, q.responses).push(
        own,
    ));
    assert(replay(sender, q.responses) + Seq::<EventView>::empty() =~= replay(
        sender,
        q.responses,
    ));
}

/// What a query passes on, it passes on to every receiver: each value that a response adds to it
/// is on its way to each of them.
pub proof fn law_every_receiver_hears_of_every_value(
    q: QueryView,
    from: SocketAddr,
    message: MessageView,
    now: u64,
    to: ResponseSender,
    i: int,
)
    requires
        q.senders.contains(to),
        q.responses.len() <= i < q.take_in(from, message, now).0.responses.len(),
    ensures
        q.take_in(from, message, now).1.contains(
            value_event(to, q.take_in(from, message, now).0.responses[i]),
        ),
{
    let (after, told) = q.take_in(from, message, now);
    let value = after.responses[i];
    let at = choose|at: int| 0 <= at < q.senders.len() && q.senders[at] == to;
    match message.message_type {
        MessageTypeView::Response(ResponseView::GetPeers { responder_id, values, .. }) => {
            let found = peer_values(NodeView::fresh(responder_id, from, now), values);
            lemma_tell_all(q.senders, found, at, i - q.responses.len());
        },
        _ => {
            assert(told[at] == value_event(to, value));
        },
    }
}

proof fn lemma_tell_all(
    senders: Seq<ResponseSender>,
    values: Seq<ResponseValueView>,
    at: int,
    i: int,
)
    requires
        0 <= at < senders.len(),
        0 <= i < values.len(),
    ensures
        tell_all(senders, values).contains(value_event(senders[at], values[i])),
    decreases values.len(),
{
    let all = tell_all(senders, values);
    let front = tell_all(senders, values.drop_last());
    let event = value_event(senders[at], values[i]);
    if i < values.len() - 1 {
        lemma_tell_all(senders, values.drop_last(), at, i);
        let k = choose|k: int| 0 <= k < front.len() && front[k] == event;
        assert(all[k] == event);
    } else {
        assert(all[front.len() + at] == event);
    }
}

// === Walking the network ===

/// A query sends its request once to each address that it had not visited, and to no other: the
/// requests that go out, in order, go to the addresses that it visits anew, in order.
pub proof fn law_each_address_is_visited_once(
    q: QueryView,
    socket: SocketView,
    to: Seq<SocketAddr>,
    now: u64,
)
    requires
        q.wf(),
    ensures
        ({
            let (after, sent) = q.visit_all(socket, to, now);
            let anew = after.visited.skip(q.visited.len() as int);
            &&& after.visited.no_duplicates()
            &&& after.visited == q.visited + anew
            &&& forall|i: int| 0 <= i < anew.len() ==> to.contains(#[trigger] anew[i])
            &&& forall|i: int| 0 <= i < to.len() ==> after.visited.contains(#[trigger] to[i])
            &&& sent == socket.request_all(anew, q.request, now)
            &&& after.inflight.len() == q.inflight.len() + anew.len()
        }),
    decreases to.len(),
{
    let (after, sent) = q.visit_all(socket, to, now);
    let anew = after.visited.skip(q.visited.len() as int);
    lemma_visit_all(q, socket, to, now);
    if to.len() > 0 {
        let front = to.drop_last();
        law_each_address_is_visited_once(q, socket, front, now);
        let (mid, wire) = q.visit_all(socket, front, now);
        let before = mid.visited.skip(q.visited.len() as int);
        lemma_visit_all(q, socket, front, now);
        if !mid.visited.contains(to.last()) {
            assert(anew =~= before.push(to.last()));
            assert(anew.drop_last() =~= before);
            assert(after.visited =~= q.visited + anew);
        } else {
            assert(anew =~= before);
        }
        assert forall|i: int| 0 <= i < anew.len() implies to.contains(#[trigger] anew[i]) by {
            if i < before.len() {
                assert(front.contains(before[i]));
                let k = choose|k: int| 0 <= k < front.len() && front[k] == before[i];
                assert(to[k] == anew[i]);
            } else {
                assert(to[to.len() - 1] == anew[i]);
            }
        }
        assert forall|i: int| 0 <= i < to.len() implies after.visited.contains(
            #[trigger] to[i],
        ) by {
            if i < front.len() {
                assert(mid.visited.contains(front[i]));
                let k = choose|k: int| 0 <= k < mid.visited.len() && mid.visited[k] == to[i];
                assert(after.visited[k] == to[i]);
            } else if mid.visited.contains(to.last()) {
            } else {
                assert(after.visited[after.visited.len() - 1] == to[i]);
            }
        }
    } else {
        assert(anew =~= Seq::empty());
        assert(after.visited =~= q.visited + anew);
    }
}

/// A step of a query leaves none of the nearest nodes that it knows unvisited, so a query that is
/// over found no nearer node to ask.
pub proof fn law_a_step_visits_the_nearest(q: QueryView, socket: SocketView, now: u64)
    requires
        q.wf(),
    ensures
        ({
            let near = q.candidates.closest(q.target);
            let after = q.tick(socket, now).0;
            forall|i: int|
                0 <= i < near.len() ==> after.visited.contains((#[trigger] near[i]).address)
        }),
{
    let near = q.candidates.closest(q.target);
    law_each_address_is_visited_once(q, socket, addresses(near), now);
    let after = q.tick(socket, now).0;
    assert forall|i: int| 0 <= i < near.len() implies after.visited.contains(
        (#[trigger] near[i]).address,
    ) by {
        assert(addresses(near)[i] == near[i].address);
    }
}

/// The hosts to find the network through play no part in a query that needs no bootstrapping.
pub proof fn law_query_without_bootstrap(
    node: RpcView,
    target: Id,
    request: RequestView,
    sender: Option<ResponseSender>,
    found: Seq<SocketAddr>,
    other: Seq<SocketAddr>,
    now: u64,
)
    requires
        !node.needs_bootstrap(target),
    ensures
        node.query(target, request, sender, found, now) == node.query(
            target,
            request,
            sender,
            other,
            now,
        ),
{
    lemma_first_index(node.queries, query_about(target));
}

/// A query that needs bootstrapping asks every address of the hosts to find the network through,
/// each once however many hosts have it, and no other.
pub proof fn law_query_with_bootstrap(
    node: RpcView,
    target: Id,
    request: RequestView,
    sender: Option<ResponseSender>,
    found: Seq<SocketAddr>,
    now: u64,
)
    requires
        node.needs_bootstrap(target),
    ensures
        ({
            let after = node.query(target, request, sender, found, now);
            let q = after.queries.last();
            &&& after.queries == node.queries.push(q)
            &&& q.target == target
            &&& q.request == request
            &&& q.visited.no_duplicates()
            &&& forall|i: int| 0 <= i < found.len() ==> q.visited.contains(#[trigger] found[i])
            &&& forall|i: int| 0 <= i < q.visited.len() ==> found.contains(#[trigger] q.visited[i])
            &&& after.socket == node.socket.request_all(q.visited, request, now)
            &&& after == RpcView { queries: after.queries, socket: after.socket, ..node }
        }),
{
    lemma_first_index(node.queries, query_about(target));
    let fresh = QueryView::fresh(target, request).add_sender(sender);
    lemma_empty_table(target);
    assert(fresh.wf());
    law_each_address_is_visited_once(fresh, node.socket, found, now);
    lemma_visit_all(fresh, node.socket, found, now);
    let after = node.query(target, request, sender, found, now);
    let q = after.queries.last();
    assert(q.visited.skip(0) =~= q.visited);
    assert(after.queries =~= node.queries.push(q));
}

// === Going on and coming to an end ===

/// A socket awaits a transaction where a request with it is under way.
proof fn lemma_awaits(socket: SocketView, tid: u16)
    ensures
        socket.awaits(tid) <==> exists|i: int|
            0 <= i < socket.inflight.len() && (#[trigger] socket.inflight[i]).transaction_id == tid,
{
    lemma_first_index(socket.inflight, has_tid(tid));
    if socket.awaits(tid) {
        let at = first_index(socket.inflight, has_tid(tid));
        assert(has_tid(tid)(socket.inflight[at]));
    } else if exists|i: int|
        0 <= i < socket.inflight.len() && (#[trigger] socket.inflight[i]).transaction_id == tid {
        let at = choose|i: int|
            0 <= i < socket.inflight.len() && (#[trigger] socket.inflight[i]).transaction_id == tid;
        assert(!has_tid(tid)(socket.inflight[at]));
    }
}

/// A socket awaits what it sends, and goes on awaiting what it awaited.
proof fn lemma_awaits_after_request(
    socket: SocketView,
    to: SocketAddr,
    request: RequestView,
    now: u64,
    tid: u16,
)
    requires
        socket.awaits(tid) || tid == socket.next_tid,
    ensures
        socket.request(to, request, now).awaits(tid),
{
    let after = socket.request(to, request, now);
    lemma_awaits(socket, tid);
    lemma_awaits(after, tid);
    if tid == socket.next_tid {
        assert(after.inflight[after.inflight.len() - 1].transaction_id == tid);
    } else {
        let at = choose|i: int|
            0 <= i < socket.inflight.len() && (#[trigger] socket.inflight[i]).transaction_id == tid;
        assert(after.inflight[at].transaction_id == tid);
    }
}

/// Visiting addresses only adds to the answers that a query waits for and that the socket awaits,
/// and the socket awaits each that is new. It changes nothing where all were visited.
proof fn lemma_visits_are_awaited(q: QueryView, socket: SocketView, to: Seq<SocketAddr>, now: u64)
    ensures
        ({
            let (after, sent) = q.visit_all(socket, to, now);
            &&& q.inflight.len() <= after.inflight.len()
            &&& forall|i: int|
                0 <= i < q.inflight.len() ==> #[trigger] after.inflight[i] == q.inflight[i]
            &&& forall|i: int|
                q.inflight.len() <= i < after.inflight.len() ==> sent.awaits(
                    #[trigger] after.inflight[i],
                )
            &&& forall|tid: u16| socket.awaits(tid) ==> #[trigger] sent.awaits(tid)
            &&& (forall|i: int| 0 <= i < to.len() ==> q.visited.contains(#[trigger] to[i])) ==> (
                after,
                sent,
            ) == (q, socket)
        }),
    decreases to.len(),
{
    if to.len() > 0 {
        let front = to.drop_last();
        lemma_visits_are_awaited(q, socket, front, now);
        let (mid, wire) = q.visit_all(socket, front, now);
        let (after, sent) = q.visit_all(socket, to, now);
        if !mid.visited.contains(to.last()) {
            assert forall|tid: u16| wire.awaits(tid) || tid == wire.next_tid implies
                #[trigger] sent.awaits(tid) by {
                lemma_awaits_after_request(wire, to.last(), mid.request, now, tid);
            }
            assert forall|i: int| q.inflight.len() <= i < after.inflight.len() implies sent.awaits(
                #[trigger] after.inflight[i],
            ) by {
                if i < mid.inflight.len() {
                    assert(after.inflight[i] == mid.inflight[i]);
                    assert(wire.awaits(mid.inflight[i]));
                } else {
                    assert(after.inflight[i] == wire.next_tid);
                }
            }
        }
        if forall|i: int| 0 <= i < to.len() ==> q.visited.contains(#[trigger] to[i]) {
            assert forall|i: int| 0 <= i < front.len() implies q.visited.contains(
                #[trigger] front[i],
            ) by {
                assert(front[i] == to[i]);
            }
            assert(q.visited.contains(to[to.len() - 1]));
        }
    }
}

/// A step of a query leaves it under way exactly where one of the nearest nodes that it knows was
/// not visited yet, or where the socket still awaits an answer that it waits for. Otherwise it is
/// over, and every receiver is told so.
pub proof fn law_a_query_goes_on(q: QueryView, socket: SocketView, now: u64)
    requires
        q.wf(),
    ensures
        ({
            let near = q.candidates.closest(q.target);
            let (after, _, told) = q.tick(socket, now);
            &&& !after.is_done() <==> {
                ||| exists|i: int|
                    0 <= i < near.len() && !q.visited.contains((#[trigger] near[i]).address)
                ||| exists|i: int|
                    0 <= i < q.inflight.len() && socket.awaits(#[trigger] q.inflight[i])
            }
            &&& told == if after.is_done() {
                after.done_events()
            } else {
                Seq::empty()
            }
        }),
{
    let near = q.candidates.closest(q.target);
    let to = addresses(near);
    let (mid, sent) = q.visit_all(socket, to, now);
    let after = q.tick(socket, now).0;
    let awaited = awaited_by(sent);
    lemma_visits_are_awaited(q, socket, to, now);
    law_each_address_is_visited_once(q, socket, to, now);
    lemma_filter_members(mid.inflight, awaited);
    if exists|i: int| 0 <= i < near.len() && !q.visited.contains((#[trigger] near[i]).address) {
        let i = choose|i: int|
            0 <= i < near.len() && !q.visited.contains((#[trigger] near[i]).address);
        assert(to[i] == near[i].address);
        assert(mid.visited.contains(to[i]));
        assert(mid.visited != q.visited);
        let anew = mid.visited.skip(q.visited.len() as int);
        assert(anew.len() > 0) by {
            if anew.len() == 0 {
                assert(q.visited + anew =~= q.visited);
            }
        }
        let last = mid.inflight.len() - 1;
        assert(awaited(mid.inflight[last]));
        assert(after.inflight.contains(mid.inflight[last]));
    } else {
        assert forall|i: int| 0 <= i < to.len() implies q.visited.contains(#[trigger] to[i]) by {
            assert(to[i] == near[i].address);
        }
        assert((mid, sent) == (q, socket));
        if exists|i: int| 0 <= i < q.inflight.len() && socket.awaits(#[trigger] q.inflight[i]) {
            let i = choose|i: int|
                0 <= i < q.inflight.len() && socket.awaits(#[trigger] q.inflight[i]);
            assert(awaited(mid.inflight[i]));
            assert(after.inflight.contains(mid.inflight[i]));
        }
        if after.inflight.len() > 0 {
            let tid = after.inflight[0];
            assert(awaited(tid));
            assert(q.inflight.contains(tid));
        }
    }
}

/// A step of a store query leaves it under way exactly where the socket still awaits an answer
/// that it waits for. Otherwise it is over, and its receiver is told so.
pub proof fn law_a_store_query_goes_on(q: StoreQueryView, socket: SocketView)
    ensures
        ({
            let (after, told) = q.tick(socket);
            &&& !after.is_done() <==> exists|i: int|
                0 <= i < q.inflight.len() && socket.awaits(#[trigger] q.inflight[i])
            &&& told == if after.is_done() {
                seq![after.stored_event()]
            } else {
                Seq::empty()
            }
        }),
{
    let awaited = awaited_by(socket);
    let after = q.tick(socket).0;
    lemma_filter_members(q.inflight, awaited);
    if exists|i: int| 0 <= i < q.inflight.len() && socket.awaits(#[trigger] q.inflight[i]) {
        let i = choose|i: int| 0 <= i < q.inflight.len() && socket.awaits(#[trigger] q.inflight[i]);
        assert(awaited(q.inflight[i]));
        assert(after.inflight.contains(q.inflight[i]));
    }
    if after.inflight.len() > 0 {
        assert(awaited(after.inflight[0]));
        assert(q.inflight.contains(after.inflight[0]));
    }
}

/// Once what timed out is forgotten, a transaction is awaited exactly where a request with it was
/// under way that is not older than the time-out.
pub proof fn law_what_times_out_is_not_awaited(socket: SocketView, now: u64, tid: u16)
    ensures
        socket.without_timed_out(now).awaits(tid) <==> exists|i: int|
            0 <= i < socket.inflight.len() && (#[trigger] socket.inflight[i]).transaction_id == tid
                && spec_elapsed(socket.inflight[i].sent_at, now) < socket.request_timeout
                * MILLISECOND,
{
    let keep = not_timed_out(socket.request_timeout, now);
    let purged = socket.without_timed_out(now);
    lemma_filter_members(socket.inflight, keep);
    lemma_awaits(purged, tid);
    if purged.awaits(tid) {
        let at = choose|i: int|
            0 <= i < purged.inflight.len() && (#[trigger] purged.inflight[i]).transaction_id == tid;
        assert(keep(purged.inflight[at]));
        assert(socket.inflight.contains(purged.inflight[at]));
    }
    if exists|i: int|
        0 <= i < socket.inflight.len() && (#[trigger] socket.inflight[i]).transaction_id == tid
            && spec_elapsed(socket.inflight[i].sent_at, now) < socket.request_timeout
            * MILLISECOND {
        let at = choose|i: int|
            0 <= i < socket.inflight.len() && (#[trigger] socket.inflight[i]).transaction_id == tid
                && spec_elapsed(socket.inflight[i].sent_at, now) < socket.request_timeout
                * MILLISECOND;
        assert(keep(socket.inflight[at]));
        assert(purged.inflight.contains(socket.inflight[at]));
    }
}

} // verus!
