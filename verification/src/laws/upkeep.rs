//! What holds of what a node does of itself.

use crate::address::SocketAddr;
use crate::closest::{cached_nodes, closest_about, put_all_closest, put_closest, ClosestView};
use crate::id::Id;
use crate::integrity::{law_tick_queries_keeps_wf, law_tick_store_queries_keeps_wf};
use crate::laws::asking::law_query_with_bootstrap;
use crate::messages::{MessageView, RequestView};
use crate::query::{addresses, QueryView};
use crate::response::{EventView, RequestSender, ResponseMessageView};
use crate::seqs::{
    distinct_keys, first_index, lemma_filter_distinct, lemma_filter_members, lemma_first_index,
    lemma_first_index_is,
};
use crate::socket::SocketView;
use crate::state::{
    not_stale, query_about, query_over, query_running, still_valid, store_running, to_ping, RpcView,
    PING_TABLE_INTERVAL, REFRESH_TABLE_INTERVAL,
};
use vstd::prelude::*;

verus! {

// === Queries that are over ===

/// What a list of results holds for a target after one more was put.
proof fn lemma_cached_after_put(list: Seq<ClosestView>, entry: ClosestView, target: Id)
    ensures
        cached_nodes(put_closest(list, entry), target) == if target == entry.target {
            entry.nodes
        } else {
            cached_nodes(list, target)
        },
{
    let index = first_index(list, closest_about(entry.target));
    let about = closest_about(target);
    let after = put_closest(list, entry);
    lemma_first_index(list, closest_about(entry.target));
    lemma_first_index(list, about);
    if target == entry.target {
        lemma_first_index_is(after, about, index);
    } else {
        let at = first_index(list, about);
        assert forall|j: int| 0 <= j < at implies !about(#[trigger] after[j]) by {
            if j < list.len() && j != index {
                assert(after[j] == list[j]);
                assert(!about(list[j]));
            }
        }
        if at < list.len() {
            assert(after[at] == list[at]);
            lemma_first_index_is(after, about, at);
        } else {
            lemma_first_index_is(after, about, after.len() as int);
        }
    }
}

/// Of several results about different targets, each is held after all were put.
proof fn lemma_cached_after_put_all(list: Seq<ClosestView>, entries: Seq<ClosestView>, i: int)
    requires
        distinct_keys(entries, |c: ClosestView| c.target),
        0 <= i < entries.len(),
    ensures
        cached_nodes(put_all_closest(list, entries), entries[i].target) == entries[i].nodes,
    decreases entries.len(),
{
    let front = entries.drop_last();
    let before = put_all_closest(list, front);
    lemma_cached_after_put(before, entries.last(), entries[i].target);
    if i < front.len() {
        assert(entries[i].target != entries[entries.len() - 1].target);
        lemma_cached_after_put_all(list, front, i);
    }
}

proof fn lemma_put_all_fresh(list: Seq<ClosestView>, entries: Seq<ClosestView>, now: u64)
    requires
        forall|i: int| 0 <= i < list.len() ==> !(#[trigger] list[i]).expired(now),
        forall|i: int| 0 <= i < entries.len() ==> !(#[trigger] entries[i]).expired(now),
    ensures
        ({
            let after = put_all_closest(list, entries);
            forall|i: int| 0 <= i < after.len() ==> !(#[trigger] after[i]).expired(now)
        }),
    decreases entries.len(),
{
    if entries.len() > 0 {
        assert(!entries.last().expired(now));
        lemma_put_all_fresh(list, entries.drop_last(), now);
        let before = put_all_closest(list, entries.drop_last());
        lemma_first_index(before, closest_about(entries.last().target));
    }
}

/// Once what is over was taken out, no query and no store query is left that is over, no result is
/// left that is too old, and for each query that was over the nodes that it found are kept.
pub proof fn law_finished_queries_leave_their_results(node: RpcView, now: u64)
    requires
        node.wf(),
    ensures
        ({
            let after = node.maintain_queries(now);
            &&& forall|i: int|
                0 <= i < after.queries.len() ==> !(#[trigger] after.queries[i]).is_done()
            &&& forall|i: int|
                0 <= i < after.store_queries.len() ==> !(
                #[trigger] after.store_queries[i]).is_done()
            &&& forall|i: int|
                0 <= i < after.closest_nodes.len() ==> !(
                #[trigger] after.closest_nodes[i]).expired(now)
            &&& forall|i: int|
                0 <= i < node.queries.len() && !(#[trigger] node.queries[i]).is_done()
                    ==> after.queries.contains(node.queries[i])
            &&& forall|i: int|
                0 <= i < node.queries.len() && (#[trigger] node.queries[i]).is_done()
                    ==> cached_nodes(after.closest_nodes, node.queries[i].target)
                    == node.queries[i].closest()
        }),
{
    let after = node.maintain_queries(now);
    let over = node.queries.filter(query_over());
    let results = node.results(now);
    let kept = node.closest_nodes.filter(still_valid(now));
    lemma_filter_members(node.queries, query_running());
    lemma_filter_members(node.queries, query_over());
    lemma_filter_members(node.store_queries, store_running());
    lemma_filter_members(node.closest_nodes, still_valid(now));
    lemma_filter_distinct(node.queries, |q: QueryView| q.target, query_over());
    assert forall|i: int| 0 <= i < after.queries.len() implies !(
    #[trigger] after.queries[i]).is_done() by {
        assert(query_running()(after.queries[i]));
    }
    assert forall|i: int| 0 <= i < after.store_queries.len() implies !(
    #[trigger] after.store_queries[i]).is_done() by {
        assert(store_running()(after.store_queries[i]));
    }
    assert forall|i: int| 0 <= i < kept.len() implies !(#[trigger] kept[i]).expired(now) by {
        assert(still_valid(now)(kept[i]));
    }
    lemma_put_all_fresh(kept, results, now);
    assert forall|i: int|
        0 <= i < node.queries.len() && !(
        #[trigger] node.queries[i]).is_done() implies after.queries.contains(node.queries[i]) by {
        assert(query_running()(node.queries[i]));
    }
    assert forall|i: int, j: int| 0 <= i < j < results.len() implies (#[trigger] results[i]).target
        != (#[trigger] results[j]).target by {
        assert(over[i].target != over[j].target);
    }
    assert forall|i: int|
        0 <= i < node.queries.len() && (#[trigger] node.queries[i]).is_done() implies cached_nodes(
        after.closest_nodes,
        node.queries[i].target,
    ) == node.queries[i].closest() by {
        assert(query_over()(node.queries[i]));
        assert(over.contains(node.queries[i]));
        let k = choose|k: int| 0 <= k < over.len() && over[k] == node.queries[i];
        assert(results[k].target == node.queries[i].target);
        lemma_cached_after_put_all(kept, results, k);
    }
}

/// The last word to a receiver of a query.
pub open spec fn last_word(q: QueryView, i: int) -> EventView {
    EventView::Response {
        to: q.senders[i],
        message: ResponseMessageView::Done {
            visited: q.visited.len(),
            closest_nodes: q.closest(),
        },
    }
}

/// After a step of each query, every receiver of a query that is over was told so: it is before
/// the query is taken out.
pub proof fn law_receivers_hear_the_end(node: RpcView, n: nat, now: u64, at: int, i: int)
    requires
        n <= node.queries.len(),
        0 <= at < n,
        node.tick_queries(n, now).queries[at].is_done(),
        0 <= i < node.tick_queries(n, now).queries[at].senders.len(),
    ensures
        node.tick_queries(n, now).events.contains(
            last_word(node.tick_queries(n, now).queries[at], i),
        ),
    decreases n,
{
    let before = node.tick_queries((n - 1) as nat, now);
    let after = node.tick_queries(n, now);
    lemma_tick_queries_length(node, (n - 1) as nat, now);
    let word = last_word(after.queries[at], i);
    if at < n - 1 {
        assert(after.queries[at] == before.queries[at]);
        law_receivers_hear_the_end(node, (n - 1) as nat, now, at, i);
        let k = choose|k: int| 0 <= k < before.events.len() && before.events[k] == word;
        assert(after.events[k] == word);
    } else {
        let told = before.queries[n - 1].tick(before.socket, now).2;
        assert(told[i] == word);
        assert(after.events[before.events.len() + i] == word);
    }
}

/// No query leaves in silence: what a node does of itself tells every receiver of each query that
/// its step finds to be over.
pub proof fn law_no_query_leaves_in_silence(
    node: RpcView,
    secret: Seq<u8>,
    found: Seq<SocketAddr>,
    now: u64,
    at: int,
    i: int,
)
    requires
        node.wf(),
        0 <= at < node.queries.len(),
        node.tick_queries(node.queries.len(), now).queries[at].is_done(),
        0 <= i < node.tick_queries(node.queries.len(), now).queries[at].senders.len(),
    ensures
        node.maintain(secret, found, now).events.contains(
            last_word(node.tick_queries(node.queries.len(), now).queries[at], i),
        ),
{
    let n = node.queries.len();
    let rotated = node.rotate_tokens(secret, now);
    lemma_tick_ignores_tokens(node, rotated, n, now);
    let walked = rotated.tick_queries(n, now);
    law_receivers_hear_the_end(rotated, n, now, at, i);
    let word = last_word(walked.queries[at], i);
    let k = choose|k: int| 0 <= k < walked.events.len() && walked.events[k] == word;
    law_tick_queries_keeps_wf(rotated, n, now);
    lemma_store_step_appends(walked, walked.store_queries.len());
    let told = walked.tick_store_queries(walked.store_queries.len());
    let after = node.maintain(secret, found, now);
    let tidied = told.maintain_queries(now);
    lemma_first_index(tidied.queries, query_about(tidied.id));
    assert(tidied.events[k] == word);
    assert(after.events[k] == word);
}

/// A node after the first part of what it does of itself: its secret is changed where that is due,
/// and each query and each store query made a step.
pub open spec fn after_steps(node: RpcView, secret: Seq<u8>, now: u64) -> RpcView {
    let rotated = node.rotate_tokens(secret, now);
    let walked = rotated.tick_queries(rotated.queries.len(), now);
    walked.tick_store_queries(walked.store_queries.len())
}

/// After a step of each store query, the receiver of one that is over was told which nodes stored
/// what it was about.
pub proof fn law_receivers_hear_what_was_stored(node: RpcView, n: nat, at: int)
    requires
        n <= node.store_queries.len(),
        0 <= at < n,
        node.tick_store_queries(n).store_queries[at].is_done(),
    ensures
        node.tick_store_queries(n).events.contains(
            node.tick_store_queries(n).store_queries[at].stored_event(),
        ),
    decreases n,
{
    let before = node.tick_store_queries((n - 1) as nat);
    let after = node.tick_store_queries(n);
    lemma_tick_store_queries_length(node, (n - 1) as nat);
    let word = after.store_queries[at].stored_event();
    if at < n - 1 {
        assert(after.store_queries[at] == before.store_queries[at]);
        law_receivers_hear_what_was_stored(node, (n - 1) as nat, at);
        let k = choose|k: int| 0 <= k < before.events.len() && before.events[k] == word;
        assert(after.events[k] == word);
    } else {
        let told = before.store_queries[n - 1].tick(before.socket).1;
        assert(told[0] == word);
        assert(after.events[before.events.len() as int] == word);
    }
}

proof fn lemma_tick_store_queries_length(node: RpcView, n: nat)
    requires
        n <= node.store_queries.len(),
    ensures
        node.tick_store_queries(n).store_queries.len() == node.store_queries.len(),
    decreases n,
{
    if n > 0 {
        lemma_tick_store_queries_length(node, (n - 1) as nat);
    }
}

/// No store query leaves in silence: what a node does of itself tells the receiver of each store
/// query that its step finds to be over, and takes that store query out.
pub proof fn law_no_store_query_leaves_in_silence(
    node: RpcView,
    secret: Seq<u8>,
    found: Seq<SocketAddr>,
    now: u64,
    at: int,
)
    requires
        node.wf(),
        0 <= at < after_steps(node, secret, now).store_queries.len(),
        after_steps(node, secret, now).store_queries[at].is_done(),
    ensures
        ({
            let over = after_steps(node, secret, now).store_queries[at];
            let after = node.maintain(secret, found, now);
            &&& after.events.contains(over.stored_event())
            &&& forall|i: int|
                0 <= i < after.store_queries.len() ==> (#[trigger] after.store_queries[i]).target
                    != over.target
        }),
{
    let rotated = node.rotate_tokens(secret, now);
    assert(rotated.wf());
    law_tick_queries_keeps_wf(rotated, rotated.queries.len(), now);
    let walked = rotated.tick_queries(rotated.queries.len(), now);
    law_tick_store_queries_keeps_wf(walked, walked.store_queries.len());
    let told = after_steps(node, secret, now);
    let over = told.store_queries[at];
    law_receivers_hear_what_was_stored(walked, walked.store_queries.len(), at);
    let word = over.stored_event();
    let k = choose|k: int| 0 <= k < told.events.len() && told.events[k] == word;
    let tidied = told.maintain_queries(now);
    let after = node.maintain(secret, found, now);
    lemma_first_index(tidied.queries, query_about(tidied.id));
    assert(tidied.events[k] == word);
    assert(after.events[k] == word);
    lemma_filter_members(told.store_queries, store_running());
    assert(after.store_queries == told.store_queries.filter(store_running()));
    assert forall|i: int| 0 <= i < after.store_queries.len() implies (
    #[trigger] after.store_queries[i]).target != over.target by {
        let q = after.store_queries[i];
        assert(store_running()(q));
        assert(told.store_queries.contains(q));
        let j = choose|j: int| 0 <= j < told.store_queries.len() && told.store_queries[j] == q;
        if j < at {
            assert(told.store_queries[j].target != told.store_queries[at].target);
        } else {
            assert(j != at);
            assert(told.store_queries[at].target != told.store_queries[j].target);
        }
    }
}

/// A step of the queries does not depend on the secrets behind the tokens.
proof fn lemma_tick_ignores_tokens(node: RpcView, other: RpcView, n: nat, now: u64)
    requires
        other == (RpcView { tokens: other.tokens, ..node }),
    ensures
        other.tick_queries(n, now) == (RpcView {
            tokens: other.tokens,
            ..node.tick_queries(n, now)
        }),
    decreases n,
{
    if n > 0 {
        lemma_tick_ignores_tokens(node, other, (n - 1) as nat, now);
    }
}

/// A step of the store queries only adds to what was told.
proof fn lemma_store_step_appends(node: RpcView, n: nat)
    ensures
        node.tick_store_queries(n).events.len() >= node.events.len(),
        forall|k: int|
            0 <= k < node.events.len() ==> #[trigger] node.tick_store_queries(n).events[k]
                == node.events[k],
    decreases n,
{
    if n > 0 {
        lemma_store_step_appends(node, (n - 1) as nat);
    }
}

proof fn lemma_tick_queries_length(node: RpcView, n: nat, now: u64)
    requires
        n <= node.queries.len(),
    ensures
        node.tick_queries(n, now).queries.len() == node.queries.len(),
    decreases n,
{
    if n > 0 {
        lemma_tick_queries_length(node, (n - 1) as nat, now);
    }
}

// === The routing table ===

/// An empty routing table is refreshed at most once in [`REFRESH_TABLE_INTERVAL`].
pub proof fn law_refresh_backs_off(node: RpcView, found: Seq<SocketAddr>, now: u64, later: u64)
    requires
        node.refresh_due(now),
        later <= now + REFRESH_TABLE_INTERVAL,
    ensures
        !node.refresh_table(found, now).refresh_due(later),
{
}

/// The nodes of the routing table are pinged at most once in [`PING_TABLE_INTERVAL`]; after that
/// no stale node is left, and every other stayed.
pub proof fn law_ping_drops_the_stale(node: RpcView, now: u64, later: u64)
    requires
        node.ping_due(now),
        later <= now + PING_TABLE_INTERVAL,
    ensures
        ({
            let after = node.ping_table(now);
            &&& !after.ping_due(later)
            &&& forall|i: int|
                0 <= i < after.routing_table.nodes.len() ==> !(
                #[trigger] after.routing_table.nodes[i]).is_stale(now)
            &&& forall|i: int|
                0 <= i < node.routing_table.nodes.len() && !(
                #[trigger] node.routing_table.nodes[i]).is_stale(now)
                    ==> after.routing_table.nodes.contains(node.routing_table.nodes[i])
        }),
{
    let nodes = node.routing_table.nodes;
    let after = node.ping_table(now);
    lemma_filter_members(nodes, not_stale(now));
    assert forall|i: int| 0 <= i < after.routing_table.nodes.len() implies !(
    #[trigger] after.routing_table.nodes[i]).is_stale(now) by {
        assert(not_stale(now)(after.routing_table.nodes[i]));
    }
    assert forall|i: int|
        0 <= i < nodes.len() && !(#[trigger] nodes[i]).is_stale(
            now,
        ) implies after.routing_table.nodes.contains(nodes[i]) by {
        assert(not_stale(now)(nodes[i]));
    }
}

/// A step needs the addresses of the hosts to find the network through only where a refresh is due.
pub proof fn law_step_without_refresh(
    node: RpcView,
    secret: Seq<u8>,
    found: Seq<SocketAddr>,
    other: Seq<SocketAddr>,
    incoming: Option<(MessageView, SocketAddr)>,
    now: u64,
)
    requires
        node.wf(),
        !node.refresh_due(now),
    ensures
        node.tick(secret, found, incoming, now) == node.tick(secret, other, incoming, now),
{
    let rotated = node.rotate_tokens(secret, now);
    law_tick_queries_keeps_wf(rotated, rotated.queries.len(), now);
    let walked = rotated.tick_queries(rotated.queries.len(), now);
    law_tick_store_queries_keeps_wf(walked, walked.store_queries.len());
}

/// A node that was just started and given options: an identifier, the hosts to find the network
/// through, whether it tells others that it answers no requests, a time-out and a custom handler.
pub open spec fn with_options(
    fresh: RpcView,
    id: Id,
    bootstrap: Seq<Seq<char>>,
    read_only: bool,
    request_timeout: u64,
    handler: Option<RequestSender>,
) -> RpcView {
    RpcView {
        id,
        bootstrap,
        socket: SocketView { read_only, request_timeout, ..fresh.socket },
        custom_request_handler: handler,
        ..fresh
    }
}

/// The first step of a node, whatever its options and at any moment after its start, looks up its
/// own identifier: it sends that request to every address of the hosts to find the network through,
/// to each once however many hosts have it, and nothing else.
pub proof fn law_first_step_bootstraps(
    first_id: Id,
    prev_secret: Seq<u8>,
    curr_secret: Seq<u8>,
    local_addr: SocketAddr,
    started: u64,
    id: Id,
    bootstrap: Seq<Seq<char>>,
    read_only: bool,
    request_timeout: u64,
    handler: Option<RequestSender>,
    secret: Seq<u8>,
    found: Seq<SocketAddr>,
    now: u64,
)
    requires
        REFRESH_TABLE_INTERVAL <= started < now,
    ensures
        ({
            let node = with_options(
                RpcView::fresh(first_id, prev_secret, curr_secret, local_addr, started),
                id,
                bootstrap,
                read_only,
                request_timeout,
                handler,
            );
            let after = node.tick(secret, found, None, now);
            let request = RequestView::FindNode { requester_id: id, target: id };
            let q = after.queries[0];
            &&& after.queries.len() == 1
            &&& q.target == id
            &&& q.request == request
            &&& q.visited.no_duplicates()
            &&& forall|i: int| 0 <= i < found.len() ==> q.visited.contains(#[trigger] found[i])
            &&& forall|i: int| 0 <= i < q.visited.len() ==> found.contains(#[trigger] q.visited[i])
            &&& after.socket.outgoing == node.socket.request_all(q.visited, request, now).outgoing
            &&& after.events.len() == 0
        }),
{
    reveal(Seq::filter);
    let node = with_options(
        RpcView::fresh(first_id, prev_secret, curr_secret, local_addr, started),
        id,
        bootstrap,
        read_only,
        request_timeout,
        handler,
    );
    let rotated = node.rotate_tokens(secret, now);
    assert(rotated.tick_queries(0, now) == rotated);
    assert(rotated.tick_store_queries(0) == rotated);
    let tidied = rotated.maintain_queries(now);
    assert(tidied =~= rotated);
    assert(tidied.refresh_due(now));
    let marked = RpcView { last_table_refresh: now, ..tidied };
    assert(marked.needs_bootstrap(id));
    law_query_with_bootstrap(
        marked,
        id,
        RequestView::FindNode { requester_id: id, target: id },
        None,
        found,
        now,
    );
    let refreshed = tidied.refresh_table(found, now);
    assert(refreshed.routing_table.nodes =~= Seq::empty());
    let pinged = refreshed.ping_table(now);
    assert(addresses(refreshed.routing_table.nodes.filter(to_ping(now))) =~= Seq::empty());
    assert(pinged.socket == refreshed.socket);
}

} // verus!
