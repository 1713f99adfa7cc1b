//! What every node keeps, whatever it does.

use crate::address::SocketAddr;
use crate::cache::{has_key, key_of, other_key, stored, Key, StoredView};
use crate::closest::{cached_nodes, closest_about, put_all_closest, put_closest, ClosestView};
use crate::id::Id;
use crate::item::ItemView;
use crate::messages::{MessageTypeView, MessageView, RequestView};
use crate::node::NodeView;
use crate::peers::{law_add_peer_keeps_invariant, Peer};
use crate::query::{addresses, QueryView, StoreQueryView};
use crate::response::{RequestSender, ResponseSender};
use crate::routing_table::{
    count, in_bucket, law_add_all_keeps_invariant, law_add_keeps_invariant,
    law_filter_keeps_invariant, TableView,
};
use crate::seqs::{
    distinct_keys, first_index, lemma_filter_distinct, lemma_filter_members, lemma_first_index,
};
use crate::socket::SocketView;
use crate::state::{
    not_stale, query_about, query_expecting, query_running, still_valid, store_about, store_at,
    store_expecting, store_running, CacheView, RpcView, StoreView,
};
use vstd::prelude::*;

verus! {

/// Asking nodes to store something changes neither what is stored under nor who is told.
pub proof fn lemma_store_at_target(
    query: StoreQueryView,
    socket: SocketView,
    nodes: Seq<NodeView>,
    what: StoreView,
    requester_id: Id,
    now: u64,
)
    ensures
        store_at(query, socket, nodes, what, requester_id, now).0.target == query.target,
        store_at(query, socket, nodes, what, requester_id, now).0.sender == query.sender,
        store_at(query, socket, nodes, what, requester_id, now).0.stored_at == query.stored_at,
    decreases nodes.len(),
{
    if nodes.len() > 0 {
        lemma_store_at_target(query, socket, nodes.drop_last(), what, requester_id, now);
    }
}

/// A table without nodes keeps what every table keeps.
pub proof fn lemma_empty_table(id: Id)
    ensures
        TableView::empty(id).wf(),
{
    reveal(Seq::filter);
    assert forall|d: nat| #[trigger] count(TableView::empty(id).nodes, in_bucket(id, d)) == 0 by {}
}

/// Visiting addresses changes nothing of a query but whom it visited and whose answers it waits
/// for, and keeps what every query keeps.
pub proof fn lemma_visit_all(q: QueryView, socket: SocketView, to: Seq<SocketAddr>, now: u64)
    ensures
        ({
            let after = q.visit_all(socket, to, now).0;
            &&& after == QueryView { inflight: after.inflight, visited: after.visited, ..q }
            &&& q.wf() ==> after.wf()
        }),
    decreases to.len(),
{
    if to.len() > 0 {
        lemma_visit_all(q, socket, to.drop_last(), now);
    }
}

/// A query that just started keeps what every query keeps.
pub proof fn lemma_started(
    node: RpcView,
    target: Id,
    request: RequestView,
    sender: Option<ResponseSender>,
    found: Seq<SocketAddr>,
    now: u64,
)
    ensures
        node.started(target, request, sender, found, now).0.wf(),
        node.started(target, request, sender, found, now).0.target == target,
{
    let fresh = QueryView::fresh(target, request).add_sender(sender);
    lemma_empty_table(target);
    assert(fresh.wf());
    if node.too_few_nodes(target) {
        lemma_visit_all(fresh, node.socket, found, now);
    } else {
        let near = node.routing_table.closest(target);
        let cached = cached_nodes(node.closest_nodes, target);
        law_add_all_keeps_invariant(fresh.candidates, near, now);
        law_add_all_keeps_invariant(fresh.candidates.add_all(near, now), cached, now);
        let seeded = fresh.add_candidates(near, now).add_candidates(cached, now);
        lemma_visit_all(
            seeded,
            node.socket,
            addresses(seeded.candidates.closest(seeded.target)),
            now,
        );
    }
}

/// Asking for a query keeps what every node keeps: in particular there is never more than one
/// query about a target.
pub proof fn law_query_keeps_wf(
    node: RpcView,
    target: Id,
    request: RequestView,
    sender: Option<ResponseSender>,
    found: Seq<SocketAddr>,
    now: u64,
)
    requires
        node.wf(),
    ensures
        node.query(target, request, sender, found, now).wf(),
{
    let after = node.query(target, request, sender, found, now);
    let index = first_index(node.queries, query_about(target));
    lemma_first_index(node.queries, query_about(target));
    lemma_started(node, target, request, sender, found, now);
    assert forall|i: int| 0 <= i < after.queries.len() implies (
    #[trigger] after.queries[i]).wf() by {
        if i < node.queries.len() {
            assert(node.queries[i].wf());
        }
    }
    assert forall|i: int, j: int| 0 <= i < j < after.queries.len() implies (
    #[trigger] after.queries[i]).target != (#[trigger] after.queries[j]).target by {
        if j < node.queries.len() {
            assert(node.queries[i].target != node.queries[j].target);
        } else {
            assert(!query_about(target)(node.queries[i]));
        }
    }
}

/// Storing something keeps what every node keeps: in particular there is never more than one store
/// query under a target.
pub proof fn law_store_keeps_wf(
    node: RpcView,
    target: Id,
    nodes: Seq<NodeView>,
    what: StoreView,
    sender: ResponseSender,
    now: u64,
)
    requires
        node.wf(),
    ensures
        node.store(target, nodes, what, sender, now).wf(),
{
    let after = node.store(target, nodes, what, sender, now);
    let fresh = StoreQueryView::fresh(target, sender);
    lemma_store_at_target(fresh, node.socket, nodes, what, node.id, now);
    let list = node.store_queries;
    let index = first_index(list, store_about(target));
    lemma_first_index(list, store_about(target));
    assert forall|i: int, j: int| 0 <= i < j < after.store_queries.len() implies (
    #[trigger] after.store_queries[i]).target != (#[trigger] after.store_queries[j]).target by {
        if j < list.len() {
            assert(list[i].target != list[j].target);
        } else {
            assert(!store_about(target)(list[i]));
        }
    }
}

/// What a query makes of a response keeps what every query keeps.
pub proof fn lemma_answer_keeps_query_wf(
    q: QueryView,
    from: SocketAddr,
    message: MessageView,
    now: u64,
)
    requires
        q.wf(),
    ensures
        ({
            let tid = message.transaction_id;
            let after = q.answered(tid).learn(from, message, now).take_in(from, message, now).0;
            after.wf() && after.target == q.target && after.request == q.request
        }),
{
    let answered = q.answered(message.transaction_id);
    let told = match message.closer_nodes() {
        Some(nodes) => answered.add_candidates(nodes, now),
        None => answered,
    };
    if let Some(nodes) = message.closer_nodes() {
        law_add_all_keeps_invariant(answered.candidates, nodes, now);
    }
    assert(told.wf());
    if let Some((id, token)) = message.token() {
        law_add_keeps_invariant(
            told.responders,
            NodeView::fresh(id, from, now).with_token(token),
            now,
        );
    }
    let learnt = answered.learn(from, message, now);
    assert(learnt.responses == q.responses);
    let after = learnt.take_in(from, message, now).0;
    assert forall|i: int| 0 <= i < after.responses.len() implies after.vouches_for(
        #[trigger] after.responses[i],
    ) by {
        if i < q.responses.len() {
            assert(after.responses[i] == q.responses[i]);
        }
    }
}

/// Taking in a response keeps what every node keeps.
pub proof fn law_handle_response_keeps_wf(
    node: RpcView,
    from: SocketAddr,
    message: MessageView,
    now: u64,
)
    requires
        node.wf(),
    ensures
        node.handle_response(from, message, now).wf(),
{
    let tid = message.transaction_id;
    let after = node.handle_response(from, message, now);
    let store = first_index(node.store_queries, store_expecting(tid));
    let query = first_index(node.queries, query_expecting(tid));
    lemma_first_index(node.store_queries, store_expecting(tid));
    lemma_first_index(node.queries, query_expecting(tid));
    if query < node.queries.len() {
        assert(node.queries[query].wf());
        lemma_answer_keeps_query_wf(node.queries[query], from, message, now);
    }
    assert forall|i: int| 0 <= i < after.queries.len() implies (
    #[trigger] after.queries[i]).wf() by {
        assert(node.queries[i].wf());
    }
    assert forall|i: int, j: int| 0 <= i < j < after.queries.len() implies (
    #[trigger] after.queries[i]).target != (#[trigger] after.queries[j]).target by {
        assert(node.queries[i].target != node.queries[j].target);
    }
    assert forall|i: int, j: int| 0 <= i < j < after.store_queries.len() implies (
    #[trigger] after.store_queries[i]).target != (#[trigger] after.store_queries[j]).target by {
        assert(node.store_queries[i].target != node.store_queries[j].target);
    }
}

/// Noting the author of a message keeps what every node keeps.
pub proof fn law_add_node_keeps_wf(node: RpcView, message: MessageView, from: SocketAddr, now: u64)
    requires
        node.wf(),
    ensures
        node.add_node(message, from, now).wf(),
{
    if let Some(id) = message.author_id() {
        law_add_keeps_invariant(node.routing_table, NodeView::fresh(id, from, now), now);
    }
}

/// Putting results in place of earlier ones keeps targets distinct.
proof fn lemma_put_all_closest(list: Seq<ClosestView>, entries: Seq<ClosestView>)
    requires
        distinct_keys(list, |c: ClosestView| c.target),
    ensures
        distinct_keys(put_all_closest(list, entries), |c: ClosestView| c.target),
    decreases entries.len(),
{
    if entries.len() > 0 {
        lemma_put_all_closest(list, entries.drop_last());
        let before = put_all_closest(list, entries.drop_last());
        let target = entries.last().target;
        let after = put_closest(before, entries.last());
        lemma_first_index(before, closest_about(target));
        assert forall|i: int, j: int| 0 <= i < j < after.len() implies (#[trigger] after[i]).target
            != (#[trigger] after[j]).target by {
            if j < before.len() {
                assert(before[i].target != before[j].target);
            } else {
                assert(!closest_about(target)(before[i]));
            }
        }
    }
}

/// Taking out what is over keeps what every node keeps.
pub proof fn law_maintain_queries_keeps_wf(node: RpcView, now: u64)
    requires
        node.wf(),
    ensures
        node.maintain_queries(now).wf(),
{
    let after = node.maintain_queries(now);
    lemma_filter_distinct(node.closest_nodes, |c: ClosestView| c.target, still_valid(now));
    lemma_put_all_closest(node.closest_nodes.filter(still_valid(now)), node.results(now));
    lemma_filter_distinct(node.queries, |q: QueryView| q.target, query_running());
    lemma_filter_distinct(node.store_queries, |q: StoreQueryView| q.target, store_running());
    lemma_filter_members(node.queries, query_running());
    assert forall|i: int| 0 <= i < after.queries.len() implies (
    #[trigger] after.queries[i]).wf() by {
        assert(node.queries.contains(after.queries[i]));
    }
}

/// Looking after the routing table keeps what every node keeps.
pub proof fn law_maintain_routing_table_keeps_wf(node: RpcView, found: Seq<SocketAddr>, now: u64)
    requires
        node.wf(),
    ensures
        node.maintain_routing_table(found, now).wf(),
{
    let marked = RpcView { last_table_refresh: now, ..node };
    assert(marked.wf());
    law_query_keeps_wf(
        marked,
        marked.id,
        RequestView::FindNode { requester_id: marked.id, target: marked.id },
        None,
        found,
        now,
    );
    let refreshed = node.refresh_table(found, now);
    law_filter_keeps_invariant(refreshed.routing_table, not_stale(now));
}

/// A step of the first queries keeps what every node keeps, and touches nothing but queries, the
/// socket and the events.
pub proof fn law_tick_queries_keeps_wf(node: RpcView, n: nat, now: u64)
    requires
        node.wf(),
        n <= node.queries.len(),
    ensures
        ({
            let after = node.tick_queries(n, now);
            &&& after.wf()
            &&& after.queries.len() == node.queries.len()
            &&& after == RpcView {
                queries: after.queries,
                socket: after.socket,
                events: after.events,
                ..node
            }
        }),
    decreases n,
{
    if n > 0 {
        law_tick_queries_keeps_wf(node, (n - 1) as nat, now);
        let before = node.tick_queries((n - 1) as nat, now);
        let after = node.tick_queries(n, now);
        let q = before.queries[n - 1];
        assert(q.wf());
        lemma_visit_all(q, before.socket, addresses(q.candidates.closest(q.target)), now);
        assert forall|i: int, j: int| 0 <= i < j < after.queries.len() implies (
        #[trigger] after.queries[i]).target != (#[trigger] after.queries[j]).target by {
            assert(before.queries[i].target != before.queries[j].target);
        }
        assert forall|i: int| 0 <= i < after.queries.len() implies (
        #[trigger] after.queries[i]).wf() by {
            assert(before.queries[i].wf());
        }
    }
}

/// A step of the first store queries keeps what every node keeps, and touches nothing but store
/// queries and the events.
pub proof fn law_tick_store_queries_keeps_wf(node: RpcView, n: nat)
    requires
        node.wf(),
        n <= node.store_queries.len(),
    ensures
        ({
            let after = node.tick_store_queries(n);
            &&& after.wf()
            &&& after.store_queries.len() == node.store_queries.len()
            &&& after == RpcView {
                store_queries: after.store_queries,
                events: after.events,
                ..node
            }
        }),
    decreases n,
{
    if n > 0 {
        law_tick_store_queries_keeps_wf(node, (n - 1) as nat);
        let before = node.tick_store_queries((n - 1) as nat);
        let after = node.tick_store_queries(n);
        assert forall|i: int, j: int| 0 <= i < j < after.store_queries.len() implies (
        #[trigger] after.store_queries[i]).target != (
        #[trigger] after.store_queries[j]).target by {
            assert(before.store_queries[i].target != before.store_queries[j].target);
        }
    }
}

/// What a node does of itself keeps what every node keeps.
pub proof fn law_maintain_keeps_wf(node: RpcView, secret: Seq<u8>, found: Seq<SocketAddr>, now: u64)
    requires
        node.wf(),
    ensures
        node.maintain(secret, found, now).wf(),
{
    let rotated = node.rotate_tokens(secret, now);
    assert(rotated.wf());
    law_tick_queries_keeps_wf(rotated, rotated.queries.len(), now);
    let walked = rotated.tick_queries(rotated.queries.len(), now);
    law_tick_store_queries_keeps_wf(walked, walked.store_queries.len());
    let told = walked.tick_store_queries(walked.store_queries.len());
    law_maintain_queries_keeps_wf(told, now);
    law_maintain_routing_table_keeps_wf(told.maintain_queries(now), found, now);
}

/// Using a value keeps what every store of values keeps, and every entry stays.
pub proof fn lemma_touch(cache: CacheView, id: Id)
    requires
        cache.wf(),
    ensures
        cache.touch(id).wf(),
        forall|i: int|
            0 <= i < cache.touch(id).entries.len() ==> cache.entries.contains(
                #[trigger] cache.touch(id).entries[i],
            ),
{
    let key = key_of(id);
    let entries = cache.entries;
    lemma_first_index(entries, has_key(key));
    lemma_filter_members(entries, other_key(key));
    lemma_filter_distinct(entries, |e: (Key, StoredView)| e.0, other_key(key));
    let index = first_index(entries, has_key(key));
    let after = cache.touch(id).entries;
    if index < entries.len() {
        let rest = entries.filter(other_key(key));
        lemma_filter_shorter(entries, other_key(key), index);
        assert(entries[index] == after[0]);
        assert forall|i: int| 0 < i < after.len() implies entries.contains(#[trigger] after[i])
            && after[i].0 != key by {
            assert(after[i] == rest[i - 1]);
        }
        assert forall|i: int, j: int| 0 <= i < j < after.len() implies (#[trigger] after[i]).0 != (
        #[trigger] after[j]).0 by {
            if i > 0 {
                assert(after[i] == rest[i - 1]);
                assert(after[j] == rest[j - 1]);
            }
        }
    } else {
        assert forall|i: int| 0 <= i < after.len() implies entries.contains(
            #[trigger] after[i],
        ) by {
            assert(entries[i] == after[i]);
        }
    }
}

/// A filtered sequence is shorter where an element is left out.
proof fn lemma_filter_shorter<A>(s: Seq<A>, pred: spec_fn(A) -> bool, at: int)
    requires
        0 <= at < s.len(),
        !pred(s[at]),
    ensures
        s.filter(pred).len() < s.len(),
    decreases s.len(),
{
    reveal(Seq::filter);
    let front = s.drop_last();
    lemma_filter_members(front, pred);
    if at < front.len() {
        lemma_filter_shorter(front, pred, at);
    }
}

/// Putting a value keeps what every store of values keeps; the value comes first, and every other
/// entry was there before.
pub proof fn lemma_put(cache: CacheView, id: Id, value: StoredView)
    requires
        cache.wf(),
    ensures
        cache.put(id, value).wf(),
        cache.put(id, value).entries.len() > 0,
        cache.put(id, value).entries[0] == (key_of(id), value),
        forall|i: int|
            0 < i < cache.put(id, value).entries.len() ==> cache.entries.contains(
                #[trigger] cache.put(id, value).entries[i],
            ),
{
    let key = key_of(id);
    let entries = cache.entries;
    lemma_filter_members(entries, other_key(key));
    lemma_filter_distinct(entries, |e: (Key, StoredView)| e.0, other_key(key));
    let rest = entries.filter(other_key(key));
    let after = cache.put(id, value).entries;
    assert forall|i: int| 0 < i < after.len() implies entries.contains(#[trigger] after[i])
        && after[i].0 != key by {
        assert(after[i] == rest[i - 1]);
    }
    assert forall|i: int, j: int| 0 <= i < j < after.len() implies (#[trigger] after[i]).0 != (
    #[trigger] after[j]).0 by {
        if i > 0 {
            assert(after[i] == rest[i - 1]);
            assert(after[j] == rest[j - 1]);
        }
    }
}

/// Answering a request keeps what every node keeps: in particular every value that it stores
/// belongs under its key.
pub proof fn law_handle_request_keeps_wf(
    node: RpcView,
    from: SocketAddr,
    transaction_id: u16,
    request: RequestView,
)
    requires
        node.wf(),
    ensures
        node.handle_request(from, transaction_id, request).wf(),
{
    match request {
        RequestView::Ping { .. } => {},
        RequestView::FindNode { .. } => {},
        RequestView::GetPeers { .. } => {},
        RequestView::GetValue { target, .. } => {
            lemma_touch(node.immutable_values, target);
            lemma_touch(node.mutable_values, target);
        },
        RequestView::AnnouncePeer { requester_id, info_hash, port, implied_port, .. } => {
            let address = if implied_port == Some(true) {
                from
            } else {
                SocketAddr { ip: from.ip, port }
            };
            law_add_peer_keeps_invariant(
                node.peers,
                info_hash,
                Peer { id: requester_id, address },
            );
        },
        RequestView::PutImmutable { target, v, .. } => {
            lemma_put(node.immutable_values, target, StoredView::Immutable(v));
        },
        RequestView::PutMutable { target, v, k, seq, sig, salt, cas, .. } => {
            let item = ItemView { target, key: k, seq, value: v, signature: sig, salt, cas };
            lemma_touch(node.mutable_values, target);
            lemma_put(node.mutable_values.touch(target), target, StoredView::Mutable(item));
        },
    }
}

/// Taking in what arrives keeps what every node keeps.
pub proof fn law_receive_keeps_wf(
    node: RpcView,
    incoming: Option<(MessageView, SocketAddr)>,
    now: u64,
)
    requires
        node.wf(),
    ensures
        node.receive(incoming, now).wf(),
{
    if let Some((message, from)) = incoming {
        let heard = RpcView { socket: node.socket.receive(message, from, now).0, ..node };
        assert(heard.wf());
        law_add_node_keeps_wf(heard, message, from, now);
        let noted = heard.add_node(message, from, now);
        law_handle_response_keeps_wf(noted, from, message, now);
        if let MessageTypeView::Request(request) = message.message_type {
            law_handle_request_keeps_wf(noted, from, message.transaction_id, request);
        }
    }
}

/// A step of a node keeps what every node keeps.
pub proof fn law_tick_keeps_wf(
    node: RpcView,
    secret: Seq<u8>,
    found: Seq<SocketAddr>,
    incoming: Option<(MessageView, SocketAddr)>,
    now: u64,
)
    requires
        node.wf(),
    ensures
        node.tick(secret, found, incoming, now).wf(),
{
    law_maintain_keeps_wf(node, secret, found, now);
    law_receive_keeps_wf(node.maintain(secret, found, now), incoming, now);
}

/// Which identifier a node has, which hosts it finds the network through, what its socket is set
/// to, who handles requests and what it has said play no part in what every node keeps.
pub proof fn law_options_keep_wf(
    node: RpcView,
    id: Id,
    bootstrap: Seq<Seq<char>>,
    socket: SocketView,
    handler: Option<RequestSender>,
)
    requires
        node.wf(),
    ensures
        (RpcView { id, bootstrap, socket, custom_request_handler: handler, ..node }).wf(),
{
}

} // verus!
