//! What holds of starting a query, of joining one, and of finding the network.

use crate::address::SocketAddr;
use crate::closest::{cached_nodes, closest_about};
use crate::id::Id;
use crate::integrity::{
    law_tick_queries_keeps_wf, law_tick_store_queries_keeps_wf, lemma_empty_table, lemma_visit_all,
};
use crate::laws::asking::law_each_address_is_visited_once;
use crate::laws::table::law_few_nodes_all_fit;
use crate::laws::upkeep::after_steps;
use crate::laws::wire::{law_requests_go_to_every_address, sends};
use crate::messages::RequestView;
use crate::node::NodeView;
use crate::query::{addresses, QueryView};
use crate::response::{EventView, ResponseMessageView, ResponseSender};
use crate::routing_table::{
    by_distance, law_add_all_keeps_invariant, law_by_distance_sorts, law_closest_is_nearest,
    TableView,
};
use crate::seqs::{first_index, lemma_filter_members, lemma_first_index};
use crate::socket::SocketView;
use crate::state::{query_about, query_running, resolved_addresses, to_ping, RpcView};
use vstd::prelude::*;

verus! {

// === What the hosts to find the network through resolve to ===

/// How many addresses some look-ups gave, all together.
pub open spec fn addresses_in_all(resolved: Seq<Option<Vec<SocketAddr>>>) -> nat
    decreases resolved.len(),
{
    if resolved.len() == 0 {
        0
    } else {
        addresses_in_all(resolved.drop_first()) + match resolved.first() {
            Some(list) => list@.len(),
            None => 0,
        }
    }
}

/// Whether an address is one of those that some host resolved to.
pub open spec fn is_of_a_host(resolved: Seq<Option<Vec<SocketAddr>>>, address: SocketAddr) -> bool {
    exists|i: int, j: int|
        0 <= i < resolved.len() && resolved[i] is Some && 0 <= j < resolved[i]->0@.len() && (
        #[trigger] resolved[i]->0@[j]) == address
}

/// The addresses that look-ups gave are those of every look-up, one after the other: no look-ups
/// give none, one that failed gives none, one that did not gives its own, and two lists of look-ups
/// give those of the first and then those of the second.
pub proof fn law_every_look_up_counts(
    first: Seq<Option<Vec<SocketAddr>>>,
    second: Seq<Option<Vec<SocketAddr>>>,
    list: Vec<SocketAddr>,
)
    ensures
        resolved_addresses(Seq::empty()) == Seq::<SocketAddr>::empty(),
        resolved_addresses(seq![None]) == Seq::<SocketAddr>::empty(),
        resolved_addresses(seq![Some(list)]) == list@,
        resolved_addresses(first + second) == resolved_addresses(first) + resolved_addresses(
            second,
        ),
    decreases second.len(),
{
    reveal_with_fuel(resolved_addresses, 2);
    let none: Seq<Option<Vec<SocketAddr>>> = seq![None];
    let some: Seq<Option<Vec<SocketAddr>>> = seq![Some(list)];
    assert(none.drop_last() =~= Seq::empty());
    assert(some.drop_last() =~= Seq::empty());
    assert(resolved_addresses(none) =~= Seq::<SocketAddr>::empty());
    assert(resolved_addresses(some) =~= list@);
    if second.len() > 0 {
        law_every_look_up_counts(first, second.drop_last(), list);
        assert((first + second).drop_last() =~= first + second.drop_last());
        assert((first + second).last() == second.last());
        assert(resolved_addresses(first + second) =~= resolved_addresses(first)
            + resolved_addresses(second));
    } else {
        assert(first + second =~= first);
        assert(resolved_addresses(first) + resolved_addresses(second) =~= resolved_addresses(
            first,
        ));
    }
}

/// Every address of every host that resolved is among those found, every one found is such an
/// address, and there are as many as the hosts have in all.
pub proof fn law_all_addresses_are_found(resolved: Seq<Option<Vec<SocketAddr>>>)
    ensures
        forall|i: int, j: int|
            0 <= i < resolved.len() && resolved[i] is Some && 0 <= j < resolved[i]->0@.len()
                ==> resolved_addresses(resolved).contains(#[trigger] resolved[i]->0@[j]),
        forall|k: int|
            0 <= k < resolved_addresses(resolved).len() ==> is_of_a_host(
                resolved,
                #[trigger] resolved_addresses(resolved)[k],
            ),
        resolved_addresses(resolved).len() == addresses_in_all(resolved),
    decreases resolved.len(),
{
    let found = resolved_addresses(resolved);
    if resolved.len() > 0 {
        let rest = resolved.drop_first();
        let head = seq![resolved.first()];
        law_all_addresses_are_found(rest);
        assert(resolved =~= head + rest);
        let later = resolved_addresses(rest);
        let list = match resolved.first() {
            Some(list) => list@,
            None => Seq::empty(),
        };
        if let Some(vec) = resolved.first() {
            law_every_look_up_counts(head, rest, vec);
            assert(head =~= seq![Some(vec)]);
        } else {
            reveal_with_fuel(resolved_addresses, 2);
            assert(head.drop_last() =~= Seq::empty());
            assert(resolved_addresses(head) =~= Seq::<SocketAddr>::empty());
            lemma_look_ups_add_up(head, rest);
        }
        assert(found == list + later);
        assert forall|i: int, j: int|
            0 <= i < resolved.len() && resolved[i] is Some && 0 <= j
                < resolved[i]->0@.len() implies found.contains(#[trigger] resolved[i]->0@[j]) by {
            let address = resolved[i]->0@[j];
            if i == 0 {
                assert(found[j] == address);
            } else {
                assert(rest[i - 1] == resolved[i]);
                assert(later.contains(rest[i - 1]->0@[j]));
                let k = choose|k: int| 0 <= k < later.len() && later[k] == address;
                assert(found[list.len() + k] == address);
            }
        }
        assert forall|k: int| 0 <= k < found.len() implies is_of_a_host(
            resolved,
            #[trigger] found[k],
        ) by {
            if k < list.len() {
                assert(resolved[0]->0@[k] == found[k]);
            } else {
                let at = k - list.len();
                assert(later[at] == found[k]);
                assert(is_of_a_host(rest, later[at]));
                let (i, j) = choose|i: int, j: int|
                    0 <= i < rest.len() && rest[i] is Some && 0 <= j < rest[i]->0@.len() && (
                    #[trigger] rest[i]->0@[j]) == later[at];
                assert(resolved[i + 1] == rest[i]);
                assert(resolved[i + 1]->0@[j] == found[k]);
            }
        }
    }
}

proof fn lemma_look_ups_add_up(
    first: Seq<Option<Vec<SocketAddr>>>,
    second: Seq<Option<Vec<SocketAddr>>>,
)
    ensures
        resolved_addresses(first + second) == resolved_addresses(first) + resolved_addresses(
            second,
        ),
    decreases second.len(),
{
    if second.len() > 0 {
        lemma_look_ups_add_up(first, second.drop_last());
        assert((first + second).drop_last() =~= first + second.drop_last());
        assert((first + second).last() == second.last());
        assert(resolved_addresses(first + second) =~= resolved_addresses(first)
            + resolved_addresses(second));
    } else {
        assert(first + second =~= first);
        assert(resolved_addresses(first) + resolved_addresses(second) =~= resolved_addresses(
            first,
        ));
    }
}

// === A query that starts ===

/// Whether a node has no query about a target.
pub open spec fn no_query_about(node: RpcView, target: Id) -> bool {
    forall|i: int| 0 <= i < node.queries.len() ==> (#[trigger] node.queries[i]).target != target
}

/// Whether a node knows nobody, or can name fewer nodes near a target, of which it names at most
/// twenty, than it has hosts to find the network through.
pub open spec fn knows_too_few(node: RpcView) -> bool {
    let known = node.routing_table.nodes.len();
    known == 0 || known < node.bootstrap.len() || 20 < node.bootstrap.len()
}

/// Whether two lists of addresses have the same members.
pub open spec fn same_members(a: Seq<SocketAddr>, b: Seq<SocketAddr>) -> bool {
    &&& forall|i: int| 0 <= i < a.len() ==> b.contains(#[trigger] a[i])
    &&& forall|i: int| 0 <= i < b.len() ==> a.contains(#[trigger] b[i])
}

/// The hosts to find the network through are needed for a query exactly where none about its target
/// is under way and the node knows too few others; and for a step exactly where the routing table
/// is empty and was not refreshed for fifteen minutes.
pub proof fn law_when_hosts_are_needed(node: RpcView, target: Id, now: u64)
    ensures
        node.needs_bootstrap(target) <==> no_query_about(node, target) && knows_too_few(node),
        node.refresh_due(now) <==> node.routing_table.nodes.len() == 0 && now
            > node.last_table_refresh + 900_000_000_000,
{
    lemma_first_index(node.queries, query_about(target));
    law_closest_is_nearest(node.routing_table, target);
    let at = first_index(node.queries, query_about(target));
    if at < node.queries.len() {
        assert(query_about(target)(node.queries[at]));
        assert(node.queries[at].target == target);
    } else {
        assert forall|i: int| 0 <= i < node.queries.len() implies (
        #[trigger] node.queries[i]).target != target by {
            assert(!query_about(target)(node.queries[i]));
        }
    }
}

/// What holds of every query that just started, wherever it starts: it is one more query, about its
/// target, with its request and its receiver; it was told nothing yet; each address that it visited
/// was sent the request once, and it waits for as many answers, under consecutive transactions.
pub open spec fn just_started(
    node: RpcView,
    after: RpcView,
    target: Id,
    request: RequestView,
    sender: Option<ResponseSender>,
    now: u64,
) -> bool {
    let q = after.queries.last();
    &&& after.queries.len() == node.queries.len() + 1
    &&& after.queries.drop_last() == node.queries
    &&& after == RpcView { queries: after.queries, socket: after.socket, ..node }
    &&& q.target == target
    &&& q.request == request
    &&& q.senders == match sender {
        Some(sender) => seq![sender],
        None => Seq::empty(),
    }
    &&& q.responses.len() == 0
    &&& q.responders == TableView { id: target, nodes: Seq::empty() }
    &&& q.visited.no_duplicates()
    &&& q.inflight.len() == q.visited.len()
    &&& forall|i: int|
        0 <= i < q.inflight.len() ==> (#[trigger] q.inflight[i]) == (node.socket.next_tid + i)
            % 0x1_0000
    &&& sends(node.socket, after.socket, q.visited, request, now)
}

proof fn lemma_visit_tids(q: QueryView, socket: SocketView, to: Seq<SocketAddr>, now: u64)
    ensures
        ({
            let (after, sent) = q.visit_all(socket, to, now);
            let more = after.visited.len() - q.visited.len();
            &&& 0 <= more
            &&& after.inflight.len() == q.inflight.len() + more
            &&& sent.next_tid == (socket.next_tid + more) % 0x1_0000
            &&& forall|i: int|
                0 <= i < q.inflight.len() ==> #[trigger] after.inflight[i] == q.inflight[i]
            &&& forall|i: int|
                q.inflight.len() <= i < after.inflight.len() ==> (#[trigger] after.inflight[i]) == (
                socket.next_tid + (i - q.inflight.len())) % 0x1_0000
        }),
    decreases to.len(),
{
    if to.len() > 0 {
        lemma_visit_tids(q, socket, to.drop_last(), now);
    }
}

/// A query that starts at a node that knows too few others asks every address that it is given,
/// each once, and no other; it has nobody else to visit yet.
pub proof fn law_a_query_starts_at_the_hosts(
    node: RpcView,
    target: Id,
    request: RequestView,
    sender: Option<ResponseSender>,
    found: Seq<SocketAddr>,
    now: u64,
)
    requires
        no_query_about(node, target),
        knows_too_few(node),
    ensures
        ({
            let after = node.query(target, request, sender, found, now);
            let q = after.queries.last();
            &&& just_started(node, after, target, request, sender, now)
            &&& same_members(q.visited, found)
            &&& q.candidates == TableView { id: target, nodes: Seq::empty() }
        }),
{
    lemma_first_index(node.queries, query_about(target));
    law_closest_is_nearest(node.routing_table, target);
    let fresh = QueryView::fresh(target, request).add_sender(sender);
    lemma_empty_table(target);
    assert(fresh.wf());
    law_each_address_is_visited_once(fresh, node.socket, found, now);
    lemma_visit_all(fresh, node.socket, found, now);
    lemma_visit_tids(fresh, node.socket, found, now);
    let after = node.query(target, request, sender, found, now);
    let q = after.queries.last();
    assert(q.visited.skip(0) =~= q.visited);
    law_requests_go_to_every_address(node.socket, q.visited, request, now);
    assert(after.queries.drop_last() =~= node.queries);
    if let Some(s) = sender {
        assert(q.senders =~= seq![s]);
    }
}

/// A query that starts at a node that knows too few others asks every address of every host that
/// resolved, each once, and no other.
pub proof fn law_a_query_asks_every_host(
    node: RpcView,
    target: Id,
    request: RequestView,
    sender: Option<ResponseSender>,
    resolved: Seq<Option<Vec<SocketAddr>>>,
    now: u64,
)
    requires
        no_query_about(node, target),
        knows_too_few(node),
    ensures
        ({
            let after = node.query(target, request, sender, resolved_addresses(resolved), now);
            let q = after.queries.last();
            &&& just_started(node, after, target, request, sender, now)
            &&& forall|i: int, j: int|
                0 <= i < resolved.len() && resolved[i] is Some && 0 <= j < resolved[i]->0@.len()
                    ==> q.visited.contains(#[trigger] resolved[i]->0@[j])
            &&& forall|k: int|
                0 <= k < q.visited.len() ==> is_of_a_host(resolved, #[trigger] q.visited[k])
        }),
{
    let found = resolved_addresses(resolved);
    law_a_query_starts_at_the_hosts(node, target, request, sender, found, now);
    law_all_addresses_are_found(resolved);
    let q = node.query(target, request, sender, found, now).queries.last();
    assert forall|i: int, j: int|
        0 <= i < resolved.len() && resolved[i] is Some && 0 <= j
            < resolved[i]->0@.len() implies q.visited.contains(#[trigger] resolved[i]->0@[j]) by {
        let address = resolved[i]->0@[j];
        assert(found.contains(address));
        let k = choose|k: int| 0 <= k < found.len() && found[k] == address;
        assert(q.visited.contains(found[k]));
    }
    assert forall|k: int| 0 <= k < q.visited.len() implies is_of_a_host(
        resolved,
        #[trigger] q.visited[k],
    ) by {
        assert(found.contains(q.visited[k]));
        let m = choose|m: int| 0 <= m < found.len() && found[m] == q.visited[k];
        assert(is_of_a_host(resolved, found[m]));
    }
}

/// A query that starts at a node that knows enough others is to visit the nearest of those in its
/// routing table, and then those that an earlier query about the target found; it asks the nearest
/// of all these at once, and nobody else.
pub proof fn law_a_query_starts_at_the_nearest(
    node: RpcView,
    target: Id,
    request: RequestView,
    sender: Option<ResponseSender>,
    found: Seq<SocketAddr>,
    now: u64,
)
    requires
        node.wf(),
        no_query_about(node, target),
        !knows_too_few(node),
    ensures
        ({
            let after = node.query(target, request, sender, found, now);
            let q = after.queries.last();
            let start = TableView { id: target, nodes: Seq::empty() };
            let known = start.add_all(node.routing_table.closest(target), now);
            let near = q.candidates.closest(target);
            &&& just_started(node, after, target, request, sender, now)
            &&& forall|i: int|
                0 <= i < node.closest_nodes.len() && (#[trigger] node.closest_nodes[i]).target
                    == target ==> q.candidates == known.add_all(node.closest_nodes[i].nodes, now)
            &&& (forall|i: int|
                0 <= i < node.closest_nodes.len() ==> (#[trigger] node.closest_nodes[i]).target
                    != target) ==> q.candidates == known
            &&& forall|i: int|
                0 <= i < near.len() ==> q.visited.contains((#[trigger] near[i]).address)
            &&& forall|i: int|
                0 <= i < q.visited.len() ==> exists|j: int|
                    0 <= j < near.len() && (#[trigger] near[j]).address == #[trigger] q.visited[i]
        }),
{
    lemma_first_index(node.queries, query_about(target));
    law_closest_is_nearest(node.routing_table, target);
    let fresh = QueryView::fresh(target, request).add_sender(sender);
    lemma_empty_table(target);
    assert(fresh.wf());
    let known_near = node.routing_table.closest(target);
    let cached = cached_nodes(node.closest_nodes, target);
    law_add_all_keeps_invariant(fresh.candidates, known_near, now);
    law_add_all_keeps_invariant(fresh.candidates.add_all(known_near, now), cached, now);
    let seeded = fresh.add_candidates(known_near, now).add_candidates(cached, now);
    let near = seeded.candidates.closest(target);
    let to = addresses(near);
    law_each_address_is_visited_once(seeded, node.socket, to, now);
    lemma_visit_all(seeded, node.socket, to, now);
    lemma_visit_tids(seeded, node.socket, to, now);
    let after = node.query(target, request, sender, found, now);
    let q = after.queries.last();
    assert(q.visited.skip(0) =~= q.visited);
    law_requests_go_to_every_address(node.socket, q.visited, request, now);
    assert(after.queries.drop_last() =~= node.queries);
    if let Some(s) = sender {
        assert(q.senders =~= seq![s]);
    }
    let about = closest_about(target);
    lemma_first_index(node.closest_nodes, about);
    assert forall|i: int|
        0 <= i < node.closest_nodes.len() && (#[trigger] node.closest_nodes[i]).target
            == target implies cached == node.closest_nodes[i].nodes by {
        assert(about(node.closest_nodes[i]));
        let at = first_index(node.closest_nodes, about);
        assert(node.closest_nodes[at].target == target);
        if at < i {
            assert(node.closest_nodes[at].target != node.closest_nodes[i].target);
        }
    }
    assert forall|i: int| 0 <= i < near.len() implies q.visited.contains(
        (#[trigger] near[i]).address,
    ) by {
        assert(to[i] == near[i].address);
    }
    assert forall|i: int| 0 <= i < q.visited.len() implies exists|j: int|
        0 <= j < near.len() && (#[trigger] near[j]).address == #[trigger] q.visited[i] by {
        assert(to.contains(q.visited[i]));
        let j = choose|j: int| 0 <= j < to.len() && to[j] == q.visited[i];
        assert(near[j].address == q.visited[i]);
    }
}

/// A query that starts at a node that knows enough others, and about whose target no result is
/// kept, asks each of the twenty nearest nodes of the routing table, or all where there are fewer;
/// but not the node, if any, that is the target itself.
pub proof fn law_all_the_nearest_known_are_asked(
    node: RpcView,
    target: Id,
    request: RequestView,
    sender: Option<ResponseSender>,
    found: Seq<SocketAddr>,
    now: u64,
    i: int,
)
    requires
        node.wf(),
        no_query_about(node, target),
        !knows_too_few(node),
        forall|j: int|
            0 <= j < node.closest_nodes.len() ==> (#[trigger] node.closest_nodes[j]).target
                != target,
        0 <= i < node.routing_table.closest(target).len(),
        node.routing_table.closest(target)[i].id != target,
    ensures
        node.query(target, request, sender, found, now).queries.last().visited.contains(
            node.routing_table.closest(target)[i].address,
        ),
{
    broadcast use vstd::seq_lib::group_to_multiset_ensures;

    law_a_query_starts_at_the_nearest(node, target, request, sender, found, now);
    law_closest_is_nearest(node.routing_table, target);
    let known = node.routing_table.closest(target);
    let other = |n: NodeView| n.id != target;
    law_a_look_up_names_each_once(node.routing_table, target);
    law_few_nodes_all_fit(target, known, now);
    lemma_filter_members(known, other);
    let q = node.query(target, request, sender, found, now).queries.last();
    let kept = known.filter(other);
    assert(q.candidates.nodes == kept);
    assert(other(known[i]));
    assert(kept.contains(known[i]));
    let near = q.candidates.closest(target);
    law_closest_is_nearest(q.candidates, target);
    law_by_distance_sorts(kept, target);
    assert(near == by_distance(kept, target));
    assert(kept.to_multiset().count(known[i]) > 0);
    assert(near.contains(known[i]));
    let k = choose|k: int| 0 <= k < near.len() && near[k] == known[i];
    assert(q.visited.contains(near[k].address));
}

/// What a look-up in a table gives, it gives once, and it gives twenty nodes, or all where there
/// are fewer.
pub proof fn law_a_look_up_names_each_once(table: TableView, target: Id)
    requires
        table.wf(),
    ensures
        table.closest(target).len() == if table.nodes.len() < 20 {
            table.nodes.len()
        } else {
            20
        },
        forall|i: int, j: int|
            0 <= i < j < table.closest(target).len() ==> (#[trigger] table.closest(target)[i]).id
                != (#[trigger] table.closest(target)[j]).id,
{
    broadcast use vstd::seq_lib::group_to_multiset_ensures;

    let all = by_distance(table.nodes, target);
    let near = table.closest(target);
    law_by_distance_sorts(table.nodes, target);
    assert(table.nodes.no_duplicates()) by {
        assert forall|i: int, j: int|
            0 <= i < table.nodes.len() && 0 <= j < table.nodes.len() && i
                != j implies table.nodes[i] != table.nodes[j] by {
            if i < j {
                assert(table.nodes[i].id != table.nodes[j].id);
            } else {
                assert(table.nodes[j].id != table.nodes[i].id);
            }
        }
    }
    table.nodes.lemma_multiset_has_no_duplicates();
    all.lemma_multiset_has_no_duplicates_conv();
    assert forall|i: int, j: int| 0 <= i < j < near.len() implies (#[trigger] near[i]).id != (
    #[trigger] near[j]).id by {
        assert(all[i] == near[i] && all[j] == near[j]);
        assert(all.to_multiset().count(all[i]) > 0);
        assert(all.to_multiset().count(all[j]) > 0);
        assert(table.nodes.contains(all[i]));
        assert(table.nodes.contains(all[j]));
        let a = choose|a: int| 0 <= a < table.nodes.len() && table.nodes[a] == all[i];
        let b = choose|b: int| 0 <= b < table.nodes.len() && table.nodes[b] == all[j];
        assert(all[i] != all[j]);
        if a < b {
            assert(table.nodes[a].id != table.nodes[b].id);
        } else {
            assert(table.nodes[b].id != table.nodes[a].id);
        }
    }
}

/// Asking for what a query is under way about sends nothing and starts nothing: the receiver joins
/// that query, behind those that are there, and is told every value seen so far, one by one and in
/// order.
pub proof fn law_a_query_under_way_is_joined(
    node: RpcView,
    target: Id,
    request: RequestView,
    sender: ResponseSender,
    found: Seq<SocketAddr>,
    now: u64,
    i: int,
)
    requires
        node.wf(),
        0 <= i < node.queries.len(),
        node.queries[i].target == target,
    ensures
        ({
            let after = node.query(target, request, Some(sender), found, now);
            let q = node.queries[i];
            let told = node.events.len() as int;
            &&& after == RpcView { queries: after.queries, events: after.events, ..node }
            &&& after.queries == node.queries.update(
                i,
                QueryView { senders: q.senders.push(sender), ..q },
            )
            &&& after.events.len() == told + q.responses.len()
            &&& forall|k: int| 0 <= k < told ==> #[trigger] after.events[k] == node.events[k]
            &&& forall|k: int|
                told <= k < told + q.responses.len() ==> #[trigger] after.events[k]
                    == (EventView::Response {
                    to: sender,
                    message: ResponseMessageView::Value(q.responses[k - told]),
                })
        }),
{
    let about = query_about(target);
    lemma_first_index(node.queries, about);
    assert(about(node.queries[i]));
    let at = first_index(node.queries, about);
    assert(node.queries[at].target == target);
    if at < i {
        assert(node.queries[at].target != node.queries[i].target);
    }
}

/// A query that is asked for without a receiver while one about its target is under way changes
/// nothing.
pub proof fn law_nobody_joins_without_a_receiver(
    node: RpcView,
    target: Id,
    request: RequestView,
    found: Seq<SocketAddr>,
    now: u64,
    i: int,
)
    requires
        0 <= i < node.queries.len(),
        node.queries[i].target == target,
    ensures
        node.query(target, request, None, found, now) == node,
{
    let about = query_about(target);
    lemma_first_index(node.queries, about);
    assert(about(node.queries[i]));
    let after = node.query(target, request, None, found, now);
    assert(after.queries =~= node.queries);
    assert(after.events =~= node.events);
}

// === What is asked for ===

/// Asking for peers sends, in the node's own name, a request for the peers of the info hash, and
/// asking for a value one for the value under the target, whatever its sequence number, with the
/// salt that was given; the one who asks is the receiver.
pub proof fn law_gets_ask_for_what_is_wanted(
    node: RpcView,
    target: Id,
    salt: Option<Seq<u8>>,
    sender: ResponseSender,
    found: Seq<SocketAddr>,
    now: u64,
)
    requires
        node.wf(),
        no_query_about(node, target),
    ensures
        just_started(
            node,
            node.get_peers(target, sender, found, now),
            target,
            RequestView::GetPeers { requester_id: node.id, info_hash: target },
            Some(sender),
            now,
        ),
        just_started(
            node,
            node.get_value(target, salt, sender, found, now),
            target,
            RequestView::GetValue { requester_id: node.id, target, seq: None, salt },
            Some(sender),
            now,
        ),
{
    let peers = RequestView::GetPeers { requester_id: node.id, info_hash: target };
    let value = RequestView::GetValue { requester_id: node.id, target, seq: None, salt };
    if knows_too_few(node) {
        law_a_query_starts_at_the_hosts(node, target, peers, Some(sender), found, now);
        law_a_query_starts_at_the_hosts(node, target, value, Some(sender), found, now);
    } else {
        law_a_query_starts_at_the_nearest(node, target, peers, Some(sender), found, now);
        law_a_query_starts_at_the_nearest(node, target, value, Some(sender), found, now);
    }
}

/// Asking for peers at a node that knows too few others asks every address of every host that
/// resolved; asking for a value does so too.
pub proof fn law_gets_ask_every_host(
    node: RpcView,
    target: Id,
    salt: Option<Seq<u8>>,
    sender: ResponseSender,
    resolved: Seq<Option<Vec<SocketAddr>>>,
    now: u64,
    i: int,
    j: int,
)
    requires
        no_query_about(node, target),
        knows_too_few(node),
        0 <= i < resolved.len(),
        resolved[i] is Some,
        0 <= j < resolved[i]->0@.len(),
    ensures
        ({
            let found = resolved_addresses(resolved);
            let peers = node.get_peers(target, sender, found, now).queries.last();
            let value = node.get_value(target, salt, sender, found, now).queries.last();
            &&& peers.visited.contains(resolved[i]->0@[j])
            &&& value.visited.contains(resolved[i]->0@[j])
        }),
{
    law_a_query_asks_every_host(
        node,
        target,
        RequestView::GetPeers { requester_id: node.id, info_hash: target },
        Some(sender),
        resolved,
        now,
    );
    law_a_query_asks_every_host(
        node,
        target,
        RequestView::GetValue { requester_id: node.id, target, seq: None, salt },
        Some(sender),
        resolved,
        now,
    );
}

/// A node whose routing table is empty, which was not refreshed for fifteen minutes, and which is
/// not looking itself up, looks itself up when it does what it does of itself: it asks every
/// address of every host that resolved for the nodes near its own identifier, and no other.
pub proof fn law_an_empty_table_is_refreshed(
    node: RpcView,
    secret: Seq<u8>,
    resolved: Seq<Option<Vec<SocketAddr>>>,
    now: u64,
)
    requires
        node.wf(),
        node.routing_table.nodes.len() == 0,
        now > node.last_table_refresh + 900_000_000_000,
        no_query_about(node, node.id),
    ensures
        ({
            let before = after_steps(node, secret, now);
            let after = node.maintain(secret, resolved_addresses(resolved), now);
            let q = after.queries.last();
            let request = RequestView::FindNode { requester_id: node.id, target: node.id };
            &&& after.last_table_refresh == now
            &&& after.queries.len() > 0
            &&& q.target == node.id
            &&& q.request == request
            &&& q.senders.len() == 0
            &&& q.visited.no_duplicates()
            &&& sends(before.socket, after.socket, q.visited, request, now)
            &&& forall|i: int, j: int|
                0 <= i < resolved.len() && resolved[i] is Some && 0 <= j < resolved[i]->0@.len()
                    ==> q.visited.contains(#[trigger] resolved[i]->0@[j])
            &&& forall|k: int|
                0 <= k < q.visited.len() ==> is_of_a_host(resolved, #[trigger] q.visited[k])
        }),
{
    let found = resolved_addresses(resolved);
    let rotated = node.rotate_tokens(secret, now);
    law_tick_queries_keeps_wf(rotated, rotated.queries.len(), now);
    let walked = rotated.tick_queries(rotated.queries.len(), now);
    law_tick_store_queries_keeps_wf(walked, walked.store_queries.len());
    let before = after_steps(node, secret, now);
    lemma_steps_keep_targets(rotated, rotated.queries.len(), now);
    let tidied = before.maintain_queries(now);
    lemma_filter_members(before.queries, query_running());
    assert(no_query_about(tidied, node.id)) by {
        assert forall|i: int| 0 <= i < tidied.queries.len() implies (
        #[trigger] tidied.queries[i]).target != node.id by {
            assert(before.queries.contains(tidied.queries[i]));
            let k = choose|k: int|
                0 <= k < before.queries.len() && before.queries[k] == tidied.queries[i];
            assert(before.queries[k].target == node.queries[k].target);
        }
    }
    let marked = RpcView { last_table_refresh: now, ..tidied };
    let request = RequestView::FindNode { requester_id: node.id, target: node.id };
    law_a_query_asks_every_host(marked, node.id, request, None, resolved, now);
    let refreshed = tidied.refresh_table(found, now);
    assert(refreshed == marked.query(node.id, request, None, found, now));
    reveal(Seq::filter);
    assert(refreshed.routing_table.nodes =~= Seq::empty());
    let after = refreshed.ping_table(now);
    assert(addresses(refreshed.routing_table.nodes.filter(to_ping(now))) =~= Seq::empty());
    assert(after.socket == refreshed.socket);
}

/// A step of the queries changes the target of none.
proof fn lemma_steps_keep_targets(node: RpcView, n: nat, now: u64)
    requires
        n <= node.queries.len(),
    ensures
        node.tick_queries(n, now).queries.len() == node.queries.len(),
        forall|i: int|
            0 <= i < node.queries.len() ==> (#[trigger] node.tick_queries(
                n,
                now,
            ).queries[i]).target == node.queries[i].target,
    decreases n,
{
    if n > 0 {
        lemma_steps_keep_targets(node, (n - 1) as nat, now);
        let before = node.tick_queries((n - 1) as nat, now);
        let q = before.queries[n - 1];
        lemma_visit_all(q, before.socket, addresses(q.candidates.closest(q.target)), now);
    }
}

} // verus!
