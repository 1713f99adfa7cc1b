//! What a node learns from the messages that it gets: whom it notes in its routing table, and what
//! a query makes of an answer.

use crate::address::SocketAddr;
use crate::crypto::signature_holds;
use crate::id::Id;
use crate::integrity::law_handle_response_keeps_wf;
use crate::item::{immutable_target, signable, ItemView};
use crate::laws::asking::law_each_address_is_visited_once;
use crate::messages::{MessageTypeView, MessageView, RequestView, ResponseView};
use crate::node::NodeView;
use crate::query::{addresses, is_value};
use crate::response::{EventView, ResponseMessageView, ResponseSender, ResponseValueView};
use crate::seqs::{first_index, lemma_first_index, lemma_first_index_is};
use crate::state::{peer_values, query_expecting, store_expecting, tell_all, RpcView};
use vstd::prelude::*;

verus! {

// === Who is noted ===

/// The author of every request and every response that is let through, and that does not say that
/// it is read-only, is noted in the routing table: under the identifier that the message names, at
/// the address that it came from, as heard of now. Nothing else is noted, and nobody for an error.
pub proof fn law_authors_are_noted(node: RpcView, message: MessageView, from: SocketAddr, now: u64)
    ensures
        ({
            let before = node.routing_table;
            let after = node.handle_message(message, from, now).routing_table;
            let heard = |id: Id| NodeView { id, address: from, token: None, last_seen: now };
            if message.read_only {
                after == before
            } else {
                match message.message_type {
                    MessageTypeView::Request(request) => match request {
                        RequestView::Ping { requester_id } => after == before.add(
                            heard(requester_id),
                            now,
                        ),
                        RequestView::FindNode { requester_id, .. } => after == before.add(
                            heard(requester_id),
                            now,
                        ),
                        RequestView::GetPeers { requester_id, .. } => after == before.add(
                            heard(requester_id),
                            now,
                        ),
                        RequestView::GetValue { requester_id, .. } => after == before.add(
                            heard(requester_id),
                            now,
                        ),
                        RequestView::AnnouncePeer { requester_id, .. } => after == before.add(
                            heard(requester_id),
                            now,
                        ),
                        RequestView::PutImmutable { requester_id, .. } => after == before.add(
                            heard(requester_id),
                            now,
                        ),
                        RequestView::PutMutable { requester_id, .. } => after == before.add(
                            heard(requester_id),
                            now,
                        ),
                    },
                    MessageTypeView::Response(response) => match response {
                        ResponseView::Ping { responder_id } => after == before.add(
                            heard(responder_id),
                            now,
                        ),
                        ResponseView::FindNode { responder_id, .. } => after == before.add(
                            heard(responder_id),
                            now,
                        ),
                        ResponseView::GetPeers { responder_id, .. } => after == before.add(
                            heard(responder_id),
                            now,
                        ),
                        ResponseView::GetImmutable { responder_id, .. } => after == before.add(
                            heard(responder_id),
                            now,
                        ),
                        ResponseView::GetMutable { responder_id, .. } => after == before.add(
                            heard(responder_id),
                            now,
                        ),
                        ResponseView::NoValues { responder_id, .. } => after == before.add(
                            heard(responder_id),
                            now,
                        ),
                        ResponseView::NoMoreRecentValue { responder_id, .. } => after
                            == before.add(heard(responder_id), now),
                    },
                    MessageTypeView::Error(_) => after == before,
                }
            }
        }),
{
}

/// What arrives and is let through is handled, what is not is dropped, and the routing table is
/// touched by nothing else that arriving does.
pub proof fn law_what_is_let_through_is_handled(
    node: RpcView,
    message: MessageView,
    from: SocketAddr,
    now: u64,
)
    ensures
        ({
            let (socket, through) = node.socket.receive(message, from, now);
            let heard = RpcView { socket, ..node };
            let after = node.receive(Some((message, from)), now);
            &&& through ==> after == heard.handle_message(message, from, now)
            &&& !through ==> after == heard
        }),
        node.receive(None, now) == (RpcView {
            socket: node.socket.without_timed_out(now),
            ..node
        }),
{
}

/// A step of a node is what it does of itself, and then what it does with what arrived.
pub proof fn law_a_step_has_two_parts(
    node: RpcView,
    secret: Seq<u8>,
    found: Seq<SocketAddr>,
    incoming: Option<(MessageView, SocketAddr)>,
    now: u64,
)
    ensures
        node.tick(secret, found, incoming, now) == node.maintain(secret, found, now).receive(
            incoming,
            now,
        ),
{
}

/// Besides noting its author, a node passes a request on to the custom handler where it has one,
/// and answers it itself otherwise; it takes in a response; and it tells of an error.
pub proof fn law_messages_are_handled_by_what_they_are(
    node: RpcView,
    message: MessageView,
    from: SocketAddr,
    now: u64,
)
    ensures
        ({
            let after = node.handle_message(message, from, now);
            let noted = RpcView { routing_table: after.routing_table, ..node };
            match message.message_type {
                MessageTypeView::Request(request) => match node.custom_request_handler {
                    Some(to) => after == RpcView {
                        events: node.events.push(
                            EventView::Request {
                                to,
                                from,
                                transaction_id: message.transaction_id,
                                request,
                            },
                        ),
                        ..noted
                    },
                    None => after == noted.handle_request(from, message.transaction_id, request),
                },
                MessageTypeView::Response(_) => after == noted.handle_response(from, message, now),
                MessageTypeView::Error(error) => after == RpcView {
                    events: node.events.push(EventView::ErrorResponse { error }),
                    ..noted
                },
            }
        }),
{
}

// === What a query makes of an answer ===

/// Whether a message is the answer that a query waits for: it is a response that is not read-only,
/// no store query waits for its transaction, and this query is the first that does.
pub open spec fn is_answer_to(node: RpcView, message: MessageView, i: int) -> bool {
    let tid = message.transaction_id;
    &&& !message.read_only
    &&& message.message_type is Response
    &&& forall|j: int|
        0 <= j < node.store_queries.len() ==> !(
        #[trigger] node.store_queries[j]).inflight.contains(tid)
    &&& 0 <= i < node.queries.len()
    &&& node.queries[i].inflight.contains(tid)
    &&& forall|j: int| 0 <= j < i ==> !(#[trigger] node.queries[j]).inflight.contains(tid)
}

/// Whether a transaction is in a list is whether it has a first place there.
proof fn lemma_expected(tids: Seq<u16>, tid: u16)
    ensures
        tids.contains(tid) <==> first_index(tids, is_value(tid)) < tids.len(),
        0 <= first_index(tids, is_value(tid)) <= tids.len(),
{
    lemma_first_index(tids, is_value(tid));
    let at = first_index(tids, is_value(tid));
    if at < tids.len() {
        assert(is_value(tid)(tids[at]));
    }
    if tids.contains(tid) {
        let k = choose|k: int| 0 <= k < tids.len() && tids[k] == tid;
        assert(is_value(tid)(tids[k]));
    }
}

/// The answer that a query waits for is handled by that query.
proof fn lemma_answer(node: RpcView, from: SocketAddr, message: MessageView, now: u64, i: int)
    requires
        is_answer_to(node, message, i),
    ensures
        ({
            let tid = message.transaction_id;
            let after = node.handle_response(from, message, now);
            let (q, told) = node.queries[i].answered(tid).learn(from, message, now).take_in(
                from,
                message,
                now,
            );
            after == RpcView {
                queries: node.queries.update(i, q),
                events: node.events + told,
                ..node
            }
        }),
{
    let tid = message.transaction_id;
    lemma_first_index(node.store_queries, store_expecting(tid));
    let store = first_index(node.store_queries, store_expecting(tid));
    if store < node.store_queries.len() {
        assert(store_expecting(tid)(node.store_queries[store]));
        lemma_expected(node.store_queries[store].inflight, tid);
    }
    assert forall|j: int| 0 <= j < i implies !query_expecting(tid)(#[trigger] node.queries[j]) by {
        lemma_expected(node.queries[j].inflight, tid);
    }
    lemma_expected(node.queries[i].inflight, tid);
    lemma_first_index_is(node.queries, query_expecting(tid), i);
}

/// An answer concerns the one query that waits for it, and what is told: that query waits for the
/// answer no longer, and its target, its request, its receivers and whom it visited stay. Nothing
/// else of the node changes.
pub proof fn law_an_answer_concerns_one_query(
    node: RpcView,
    from: SocketAddr,
    message: MessageView,
    now: u64,
    i: int,
)
    requires
        is_answer_to(node, message, i),
    ensures
        ({
            let after = node.handle_response(from, message, now);
            let (q, r) = (node.queries[i], after.queries[i]);
            &&& after == RpcView { queries: after.queries, events: after.events, ..node }
            &&& after.queries == node.queries.update(i, r)
            &&& r.target == q.target
            &&& r.request == q.request
            &&& r.visited == q.visited
            &&& r.senders == q.senders
            &&& exists|k: int|
                0 <= k < q.inflight.len() && q.inflight[k] == message.transaction_id && r.inflight
                    == #[trigger] q.inflight.remove(k)
        }),
{
    lemma_answer(node, from, message, now, i);
    let tid = message.transaction_id;
    let q = node.queries[i];
    let k = first_index(q.inflight, is_value(tid));
    lemma_first_index(q.inflight, is_value(tid));
    lemma_expected(q.inflight, tid);
    assert(is_value(tid)(q.inflight[k]));
    let after = node.handle_response(from, message, now);
    assert(after.queries[i].inflight == q.inflight.remove(k));
}

/// Every node that an answer names is one that the query is to visit: whatever kind of answer it is
/// and whatever values it brings, the nodes that it names are added, in order, to those to visit.
pub proof fn law_named_nodes_are_to_be_visited(
    node: RpcView,
    from: SocketAddr,
    message: MessageView,
    now: u64,
    i: int,
)
    requires
        is_answer_to(node, message, i),
    ensures
        ({
            let before = node.queries[i].candidates;
            let after = node.handle_response(from, message, now).queries[i].candidates;
            match message.message_type {
                MessageTypeView::Response(response) => match response {
                    ResponseView::Ping { .. } => after == before,
                    ResponseView::FindNode { nodes, .. } => after == before.add_all(nodes, now),
                    ResponseView::GetPeers { nodes, .. } => {
                        &&& nodes is None ==> after == before
                        &&& nodes is Some ==> after == before.add_all(nodes->0, now)
                    },
                    ResponseView::GetImmutable { nodes, .. } => {
                        &&& nodes is None ==> after == before
                        &&& nodes is Some ==> after == before.add_all(nodes->0, now)
                    },
                    ResponseView::GetMutable { nodes, .. } => {
                        &&& nodes is None ==> after == before
                        &&& nodes is Some ==> after == before.add_all(nodes->0, now)
                    },
                    ResponseView::NoValues { nodes, .. } => {
                        &&& nodes is None ==> after == before
                        &&& nodes is Some ==> after == before.add_all(nodes->0, now)
                    },
                    ResponseView::NoMoreRecentValue { nodes, .. } => {
                        &&& nodes is None ==> after == before
                        &&& nodes is Some ==> after == before.add_all(nodes->0, now)
                    },
                },
                _ => true,
            }
        }),
{
    lemma_answer(node, from, message, now, i);
}

/// What an answer names is followed up: after the next step of the queries, each of the nearest
/// nodes that the query then knows was visited, those that the answer named among them, and each
/// that was not before was sent the query's request.
pub proof fn law_named_nodes_are_followed_up(
    node: RpcView,
    from: SocketAddr,
    message: MessageView,
    now: u64,
    later: u64,
    i: int,
    k: int,
)
    requires
        node.wf(),
        is_answer_to(node, message, i),
        0 <= k < node.handle_response(from, message, now).queries[i].candidates.closest(
            node.queries[i].target,
        ).len(),
    ensures
        ({
            let heard = node.handle_response(from, message, now);
            let near = heard.queries[i].candidates.closest(node.queries[i].target);
            let after = heard.tick_queries(heard.queries.len(), later);
            &&& after.queries[i].visited.contains(near[k].address)
            &&& node.queries[i].visited.contains(near[k].address) || exists|d: int|
                0 <= d < after.socket.outgoing.len() && (#[trigger] after.socket.outgoing[d]).to
                    == near[k].address && after.socket.outgoing[d].message.message_type
                    == MessageTypeView::Request(node.queries[i].request)
        }),
{
    law_an_answer_concerns_one_query(node, from, message, now, i);
    law_handle_response_keeps_wf(node, from, message, now);
    let heard = node.handle_response(from, message, now);
    lemma_step_follows_up(heard, heard.queries.len(), later, i, k);
}

/// A step of the queries visits the nearest nodes that each of them knows, and sends its request to
/// those that it had not visited.
pub proof fn lemma_step_follows_up(node: RpcView, n: nat, now: u64, i: int, k: int)
    requires
        node.wf(),
        n <= node.queries.len(),
        0 <= i < n,
        0 <= k < node.queries[i].candidates.closest(node.queries[i].target).len(),
    ensures
        ({
            let q = node.queries[i];
            let near = q.candidates.closest(q.target);
            let after = node.tick_queries(n, now);
            &&& after.queries[i].visited.contains(near[k].address)
            &&& q.visited.contains(near[k].address) || exists|d: int|
                0 <= d < after.socket.outgoing.len() && (#[trigger] after.socket.outgoing[d]).to
                    == near[k].address && after.socket.outgoing[d].message.message_type
                    == MessageTypeView::Request(q.request)
        }),
    decreases n,
{
    let q = node.queries[i];
    let near = q.candidates.closest(q.target);
    let address = near[k].address;
    let before = node.tick_queries((n - 1) as nat, now);
    let after = node.tick_queries(n, now);
    lemma_untouched(node, (n - 1) as nat, now);
    crate::integrity::law_tick_queries_keeps_wf(node, (n - 1) as nat, now);
    let last = before.queries[n - 1];
    assert(last.wf());
    let to = addresses(last.candidates.closest(last.target));
    law_each_address_is_visited_once(last, before.socket, to, now);
    let (mid, sent) = last.visit_all(before.socket, to, now);
    let anew = mid.visited.skip(last.visited.len() as int);
    crate::laws::wire::law_requests_go_to_every_address(before.socket, anew, last.request, now);
    if i == n - 1 {
        assert(last == q);
        assert(to[k] == address);
        assert(mid.visited.contains(to[k]));
        let v = choose|v: int| 0 <= v < mid.visited.len() && mid.visited[v] == address;
        if !q.visited.contains(address) {
            assert(mid.visited == q.visited + anew);
            assert(v >= q.visited.len()) by {
                if v < q.visited.len() {
                    assert(q.visited[v] == address);
                }
            }
            let d = before.socket.outgoing.len() + (v - q.visited.len());
            assert(anew[v - q.visited.len()] == address);
            assert(after.socket.outgoing[d].to == address);
        }
    } else {
        lemma_step_follows_up(node, (n - 1) as nat, now, i, k);
        assert(after.queries[i] == before.queries[i]);
        if !q.visited.contains(address) {
            let d = choose|d: int|
                0 <= d < before.socket.outgoing.len() && (
                #[trigger] before.socket.outgoing[d]).to == address
                    && before.socket.outgoing[d].message.message_type == MessageTypeView::Request(
                    q.request,
                );
            assert(after.socket.outgoing[d] == before.socket.outgoing[d]);
        }
    }
}

/// A step of the first queries leaves the others as they are.
proof fn lemma_untouched(node: RpcView, n: nat, now: u64)
    requires
        n <= node.queries.len(),
    ensures
        node.tick_queries(n, now).queries.len() == node.queries.len(),
        forall|i: int|
            n <= i < node.queries.len() ==> #[trigger] node.tick_queries(n, now).queries[i]
                == node.queries[i],
    decreases n,
{
    if n > 0 {
        lemma_untouched(node, (n - 1) as nat, now);
    }
}

/// The author of an answer that hands out a token is kept as a node that can store something later:
/// under the identifier that the answer names, at the address that it came from, with that token
/// and as heard of now. An answer without a token adds nobody.
pub proof fn law_tokens_are_kept_with_their_authors(
    node: RpcView,
    from: SocketAddr,
    message: MessageView,
    now: u64,
    i: int,
)
    requires
        is_answer_to(node, message, i),
    ensures
        ({
            let before = node.queries[i].responders;
            let after = node.handle_response(from, message, now).queries[i].responders;
            let with = |id: Id, token: Seq<u8>|
                NodeView { id, address: from, token: Some(token), last_seen: now };
            match message.message_type {
                MessageTypeView::Response(response) => match response {
                    ResponseView::Ping { .. } => after == before,
                    ResponseView::FindNode { .. } => after == before,
                    ResponseView::GetPeers { responder_id, token, .. } => after == before.add(
                        with(responder_id, token),
                        now,
                    ),
                    ResponseView::GetImmutable { responder_id, token, .. } => after == before.add(
                        with(responder_id, token),
                        now,
                    ),
                    ResponseView::GetMutable { responder_id, token, .. } => after == before.add(
                        with(responder_id, token),
                        now,
                    ),
                    ResponseView::NoValues { responder_id, token, .. } => after == before.add(
                        with(responder_id, token),
                        now,
                    ),
                    ResponseView::NoMoreRecentValue { responder_id, token, .. } => after
                        == before.add(with(responder_id, token), now),
                },
                _ => true,
            }
        }),
{
    lemma_answer(node, from, message, now, i);
}

/// Whether every receiver was told one value, in the order of the receivers, and nothing else.
pub open spec fn all_were_told(
    before: Seq<EventView>,
    after: Seq<EventView>,
    senders: Seq<ResponseSender>,
    value: ResponseValueView,
) -> bool {
    &&& after.len() == before.len() + senders.len()
    &&& forall|k: int| 0 <= k < before.len() ==> #[trigger] after[k] == before[k]
    &&& forall|k: int|
        before.len() <= k < after.len() ==> #[trigger] after[k] == (EventView::Response {
            to: senders[k - before.len()],
            message: ResponseMessageView::Value(value),
        })
}

proof fn lemma_tell_all_places(
    senders: Seq<ResponseSender>,
    values: Seq<ResponseValueView>,
    i: int,
    j: int,
)
    ensures
        tell_all(senders, values).len() == values.len() * senders.len(),
        0 <= i < values.len() && 0 <= j < senders.len() ==> {
            &&& 0 <= i * senders.len() + j < values.len() * senders.len()
            &&& tell_all(senders, values)[i * senders.len() + j] == (EventView::Response {
                to: senders[j],
                message: ResponseMessageView::Value(values[i]),
            })
        },
    decreases values.len(),
{
    let n = senders.len() as int;
    let all = tell_all(senders, values);
    if values.len() > 0 {
        let front = values.drop_last();
        let m = front.len() as int;
        lemma_tell_all_places(senders, front, i, j);
        let earlier = tell_all(senders, front);
        assert((m + 1) * n == m * n + n) by (nonlinear_arith);
        assert(all.len() == values.len() * senders.len());
        if 0 <= i < values.len() && 0 <= j < n {
            assert(0 <= i * n + j < (m + 1) * n) by (nonlinear_arith)
                requires
                    0 <= i <= m,
                    0 <= j < n,
            ;
            if i < m {
                assert(i * n + j < m * n) by (nonlinear_arith)
                    requires
                        0 <= i < m,
                        0 <= j < n,
                ;
                assert(all[i * n + j] == earlier[i * n + j]);
            }
        }
    } else {
        assert(0 * n == 0) by (nonlinear_arith);
    }
}

/// Every peer that an answer names is passed on, each on its own and in order: the query gets as
/// many new values as the answer names peers, each with who named it, and every receiver is told of
/// the first, then every receiver of the second, and so on; nobody is told anything else.
pub proof fn law_every_peer_is_passed_on(
    node: RpcView,
    from: SocketAddr,
    message: MessageView,
    now: u64,
    i: int,
    responder_id: Id,
    token: Seq<u8>,
    values: Seq<SocketAddr>,
    nodes: Option<Seq<NodeView>>,
    v: int,
    r: int,
)
    requires
        is_answer_to(node, message, i),
        message.message_type == MessageTypeView::Response(
            ResponseView::GetPeers { responder_id, token, values, nodes },
        ),
    ensures
        ({
            let after = node.handle_response(from, message, now);
            let senders = node.queries[i].senders;
            let before = node.queries[i].responses;
            let told = node.events.len() as int;
            let author = NodeView { id: responder_id, address: from, token: None, last_seen: now };
            &&& after.queries[i].responses.len() == before.len() + values.len()
            &&& forall|k: int|
                0 <= k < before.len() ==> #[trigger] after.queries[i].responses[k] == before[k]
            &&& 0 <= v < values.len() ==> after.queries[i].responses[before.len() + v]
                == (ResponseValueView::Peer { from: author, peer: values[v] })
            &&& after.events.len() == told + values.len() * senders.len()
            &&& forall|k: int| 0 <= k < told ==> #[trigger] after.events[k] == node.events[k]
            &&& 0 <= v < values.len() && 0 <= r < senders.len() ==> {
                &&& 0 <= v * senders.len() + r < values.len() * senders.len()
                &&& after.events[told + (v * senders.len() + r)] == (EventView::Response {
                    to: senders[r],
                    message: ResponseMessageView::Value(
                        ResponseValueView::Peer { from: author, peer: values[v] },
                    ),
                })
            }
        }),
{
    lemma_answer(node, from, message, now, i);
    let author = NodeView { id: responder_id, address: from, token: None, last_seen: now };
    let senders = node.queries[i].senders;
    let found = peer_values(author, values);
    assert(found.len() == values.len());
    lemma_tell_all_places(senders, found, v, r);
    let after = node.handle_response(from, message, now);
    let told = tell_all(senders, found);
    assert(after.events == node.events + told);
}

/// An immutable value is passed on exactly where the target of the query is the identifier under
/// which it is stored; otherwise it is noted, and no receiver hears of it.
pub proof fn law_the_immutable_value_is_passed_on(
    node: RpcView,
    from: SocketAddr,
    message: MessageView,
    now: u64,
    i: int,
    responder_id: Id,
    token: Seq<u8>,
    nodes: Option<Seq<NodeView>>,
    v: Seq<u8>,
)
    requires
        is_answer_to(node, message, i),
        message.message_type == MessageTypeView::Response(
            ResponseView::GetImmutable { responder_id, token, nodes, v },
        ),
    ensures
        ({
            let after = node.handle_response(from, message, now);
            let q = node.queries[i];
            let value = ResponseValueView::Immutable {
                from: NodeView { id: responder_id, address: from, token: None, last_seen: now },
                value: v,
            };
            if immutable_target(v) == q.target {
                &&& after.queries[i].responses == q.responses.push(value)
                &&& all_were_told(node.events, after.events, q.senders, value)
            } else {
                &&& after.queries[i].responses == q.responses
                &&& after.events == node.events.push(
                    EventView::InvalidImmutable { target: q.target, value: v },
                )
            }
        }),
{
    lemma_answer(node, from, message, now, i);
    let after = node.handle_response(from, message, now);
    let q = node.queries[i];
    if immutable_target(v) != q.target {
        assert(after.events =~= node.events.push(
            EventView::InvalidImmutable { target: q.target, value: v },
        ));
    }
}

/// A mutable item is passed on exactly where its signature is one, under its key, of its value, its
/// sequence number and the salt that the query asked for; otherwise it is noted, and no receiver
/// hears of it. What is passed on belongs under the query's target and carries that salt.
pub proof fn law_the_mutable_item_is_passed_on(
    node: RpcView,
    from: SocketAddr,
    message: MessageView,
    now: u64,
    i: int,
    responder_id: Id,
    token: Seq<u8>,
    nodes: Option<Seq<NodeView>>,
    v: Seq<u8>,
    k: Seq<u8>,
    seq: i64,
    sig: Seq<u8>,
)
    requires
        is_answer_to(node, message, i),
        message.message_type == MessageTypeView::Response(
            ResponseView::GetMutable { responder_id, token, nodes, v, k, seq, sig },
        ),
    ensures
        ({
            let after = node.handle_response(from, message, now);
            let q = node.queries[i];
            let asked = match q.request {
                RequestView::GetValue { salt, .. } => salt,
                _ => None,
            };
            let value = ResponseValueView::Mutable {
                from: NodeView { id: responder_id, address: from, token: None, last_seen: now },
                item: ItemView {
                    target: q.target,
                    key: k,
                    seq,
                    value: v,
                    signature: sig,
                    salt: asked,
                    cas: None,
                },
            };
            if signature_holds(k, signable(seq, v, asked), sig) {
                &&& after.queries[i].responses == q.responses.push(value)
                &&& all_were_told(node.events, after.events, q.senders, value)
            } else {
                &&& after.queries[i].responses == q.responses
                &&& after.events == node.events.push(
                    EventView::InvalidMutable {
                        target: q.target,
                        value: v,
                        seq,
                        signature: sig,
                        salt: asked,
                    },
                )
            }
        }),
{
    lemma_answer(node, from, message, now, i);
    let after = node.handle_response(from, message, now);
    let q = node.queries[i];
    let asked = match q.request {
        RequestView::GetValue { salt, .. } => salt,
        _ => None,
    };
    if !signature_holds(k, signable(seq, v, asked), sig) {
        assert(after.events =~= node.events.push(
            EventView::InvalidMutable {
                target: q.target,
                value: v,
                seq,
                signature: sig,
                salt: asked,
            },
        ));
    }
}

/// An answer without a value adds no value, and nobody is told of it.
pub proof fn law_answers_without_values_are_not_told(
    node: RpcView,
    from: SocketAddr,
    message: MessageView,
    now: u64,
    i: int,
)
    requires
        is_answer_to(node, message, i),
        match message.message_type {
            MessageTypeView::Response(ResponseView::GetPeers { .. }) => false,
            MessageTypeView::Response(ResponseView::GetImmutable { .. }) => false,
            MessageTypeView::Response(ResponseView::GetMutable { .. }) => false,
            _ => true,
        },
    ensures
        ({
            let after = node.handle_response(from, message, now);
            &&& after.queries[i].responses == node.queries[i].responses
            &&& after.events == node.events
        }),
{
    lemma_answer(node, from, message, now, i);
    assert(node.events + Seq::<EventView>::empty() =~= node.events);
}

/// An answer that a store query waits for counts for the first such store query alone: it waits for
/// it no longer, and the author of a ping response is one more that stored what it is about.
/// Nothing else of the node changes.
pub proof fn law_an_answer_concerns_one_store_query(
    node: RpcView,
    from: SocketAddr,
    message: MessageView,
    now: u64,
    i: int,
)
    requires
        !message.read_only,
        0 <= i < node.store_queries.len(),
        node.store_queries[i].inflight.contains(message.transaction_id),
        forall|j: int|
            0 <= j < i ==> !(#[trigger] node.store_queries[j]).inflight.contains(
                message.transaction_id,
            ),
    ensures
        ({
            let after = node.handle_response(from, message, now);
            let (q, r) = (node.store_queries[i], after.store_queries[i]);
            &&& after == RpcView { store_queries: node.store_queries.update(i, r), ..node }
            &&& r.target == q.target
            &&& r.sender == q.sender
            &&& r.closest_nodes == q.closest_nodes
            &&& exists|k: int|
                0 <= k < q.inflight.len() && q.inflight[k] == message.transaction_id && r.inflight
                    == #[trigger] q.inflight.remove(k)
            &&& r.stored_at == match message.message_type {
                MessageTypeView::Response(ResponseView::Ping { responder_id }) => q.stored_at.push(
                    responder_id,
                ),
                _ => q.stored_at,
            }
        }),
{
    let tid = message.transaction_id;
    assert forall|j: int| 0 <= j < i implies !store_expecting(tid)(
        #[trigger] node.store_queries[j],
    ) by {
        lemma_expected(node.store_queries[j].inflight, tid);
    }
    let q = node.store_queries[i];
    lemma_expected(q.inflight, tid);
    lemma_first_index_is(node.store_queries, store_expecting(tid), i);
    let k = first_index(q.inflight, is_value(tid));
    lemma_first_index(q.inflight, is_value(tid));
    assert(is_value(tid)(q.inflight[k]));
    let after = node.handle_response(from, message, now);
    assert(after.store_queries[i].inflight == q.inflight.remove(k));
}

/// A response that is read-only, or that no query and no store query waits for, changes nothing.
pub proof fn law_other_answers_change_nothing(
    node: RpcView,
    from: SocketAddr,
    message: MessageView,
    now: u64,
)
    requires
        message.read_only || {
            &&& forall|j: int|
                0 <= j < node.store_queries.len() ==> !(
                #[trigger] node.store_queries[j]).inflight.contains(message.transaction_id)
            &&& forall|j: int|
                0 <= j < node.queries.len() ==> !(#[trigger] node.queries[j]).inflight.contains(
                    message.transaction_id,
                )
        },
    ensures
        node.handle_response(from, message, now) == node,
{
    let tid = message.transaction_id;
    lemma_first_index(node.store_queries, store_expecting(tid));
    lemma_first_index(node.queries, query_expecting(tid));
    let store = first_index(node.store_queries, store_expecting(tid));
    let query = first_index(node.queries, query_expecting(tid));
    if store < node.store_queries.len() {
        assert(store_expecting(tid)(node.store_queries[store]));
        lemma_expected(node.store_queries[store].inflight, tid);
    }
    if query < node.queries.len() {
        assert(query_expecting(tid)(node.queries[query]));
        lemma_expected(node.queries[query].inflight, tid);
    }
}

} // verus!
