//! What holds of a new node and of each step that a node makes of itself.

use crate::address::SocketAddr;
use crate::closest::{closest_about, put_all_closest, ClosestView};
use crate::id::Id;
use crate::integrity::{law_tick_queries_keeps_wf, law_tick_store_queries_keeps_wf, lemma_visit_all};
use crate::laws::asking::law_each_address_is_visited_once;
use crate::laws::upkeep::after_steps;
use crate::laws::wire::{law_awaited_is_under_way, law_requests_go_to_every_address, sends};
use crate::messages::RequestView;
use crate::node::NodeView;
use crate::query::{addresses, awaited_by, QueryView, StoreQueryView};
use crate::response::{EventView, ResponseMessageView};
use crate::routing_table::TableView;
use crate::seqs::{
    distinct_keys, first_index, lemma_filter_distinct, lemma_filter_members, lemma_first_index,
};
use crate::socket::SocketView;
use crate::state::{
    not_stale, query_about, query_over, query_running, still_valid, store_running, to_ping, RpcView,
};
use vstd::prelude::*;

verus! {

// === A new node ===

/// A new node has its identifier and its secrets, finds the network through four known hosts, knows
/// nobody, asks nothing and stores nothing; a refresh of its routing table is due as soon as time
/// passes, and it pings nobody for five minutes.
pub proof fn law_a_new_node(
    id: Id,
    prev_secret: Seq<u8>,
    curr_secret: Seq<u8>,
    local_addr: SocketAddr,
    now: u64,
    later: u64,
)
    requires
        900_000_000_000 <= now,
    ensures
        ({
            let node = RpcView::fresh(id, prev_secret, curr_secret, local_addr, now);
            &&& node.id == id
            &&& node.bootstrap.len() == 4
            &&& node.bootstrap[0] == "router.bittorrent.com:6881"@
            &&& node.bootstrap[1] == "dht.transmissionbt.com:6881"@
            &&& node.bootstrap[2] == "dht.libtorrent.org:25401"@
            &&& node.bootstrap[3] == "dht.anacrolix.link:42069"@
            &&& node.socket == SocketView {
                read_only: false,
                request_timeout: 2_000,
                next_tid: 0,
                inflight: Seq::empty(),
                outgoing: Seq::empty(),
                local_addr,
            }
            &&& node.routing_table == TableView { id, nodes: Seq::empty() }
            &&& node.queries.len() == 0
            &&& node.store_queries.len() == 0
            &&& node.closest_nodes.len() == 0
            &&& node.events.len() == 0
            &&& node.tokens.prev_secret == prev_secret
            &&& node.tokens.curr_secret == curr_secret
            &&& node.tokens.last_updated == now
            &&& node.peers.swarms.len() == 0
            &&& node.peers.max_info_hashes == 2000
            &&& node.peers.max_peers == 500
            &&& node.immutable_values.entries.len() == 0
            &&& node.immutable_values.capacity == 1000
            &&& node.mutable_values.entries.len() == 0
            &&& node.mutable_values.capacity == 1000
            &&& node.custom_request_handler is None
            &&& node.last_table_refresh + 900_000_000_000 == now
            &&& node.last_table_ping == now
            &&& node.refresh_due(later) <==> later > now
            &&& node.ping_due(later) <==> later > now + 300_000_000_000
        }),
{
}

// === Queries ===

/// What a step of a query does: it visits the nearest nodes that it knows and had not visited, each
/// once, and sends its request to no other; of the answers that it waits for, those stay that the
/// socket awaits; and where none stays, every receiver hears, in order, how many addresses were
/// visited and which of the nodes that handed out a token are nearest, and nothing otherwise. What
/// it is about, whom it knows and what it found stay.
pub proof fn law_what_a_step_of_a_query_does(q: QueryView, socket: SocketView, now: u64)
    requires
        q.wf(),
    ensures
        ({
            let (after, sent, told) = q.tick(socket, now);
            let near = q.candidates.closest(q.target);
            let seen = q.visited.len() as int;
            let anew = after.visited.skip(seen);
            &&& after == QueryView { inflight: after.inflight, visited: after.visited, ..q }
            &&& after.visited == q.visited + anew
            &&& after.visited.no_duplicates()
            &&& forall|i: int|
                0 <= i < near.len() ==> after.visited.contains((#[trigger] near[i]).address)
            &&& forall|i: int|
                0 <= i < anew.len() ==> exists|j: int|
                    0 <= j < near.len() && (#[trigger] near[j]).address == #[trigger] anew[i]
            &&& sends(socket, sent, anew, q.request, now)
            &&& forall|k: int|
                0 <= k < after.inflight.len() ==> sent.awaits(#[trigger] after.inflight[k])
            &&& forall|k: int|
                0 <= k < q.inflight.len() && sent.awaits(#[trigger] q.inflight[k])
                    ==> after.inflight.contains(q.inflight[k])
            &&& forall|k: int|
                0 <= k < after.inflight.len() ==> q.inflight.contains(
                    #[trigger] after.inflight[k],
                ) || exists|m: int|
                    0 <= m < anew.len() && after.inflight[k] == #[trigger] nth_tid(socket, m)
            &&& after.inflight == (q.inflight + Seq::new(
                anew.len(),
                |m: int| nth_tid(socket, m) as u16,
            )).filter(|tid: u16| sent.awaits(tid))
            &&& forall|m: int|
                0 <= m < anew.len() ==> after.inflight.contains(
                    #[trigger] nth_tid(socket, m) as u16,
                )
            &&& after.inflight.len() > 0 ==> told.len() == 0
            &&& after.inflight.len() == 0 ==> {
                &&& told.len() == q.senders.len()
                &&& forall|k: int|
                    0 <= k < told.len() ==> #[trigger] told[k] == (EventView::Response {
                        to: q.senders[k],
                        message: ResponseMessageView::Done {
                            visited: after.visited.len(),
                            closest_nodes: q.responders.closest(q.target),
                        },
                    })
            }
        }),
{
    let near = q.candidates.closest(q.target);
    let to = addresses(near);
    let (mid, sent) = q.visit_all(socket, to, now);
    let (after, _, told) = q.tick(socket, now);
    let anew = mid.visited.skip(q.visited.len() as int);
    lemma_visit_all(q, socket, to, now);
    law_each_address_is_visited_once(q, socket, to, now);
    law_requests_go_to_every_address(socket, anew, q.request, now);
    lemma_new_tids(q, socket, to, now);
    let awaited = awaited_by(sent);
    lemma_filter_members(mid.inflight, awaited);
    assert forall|i: int| 0 <= i < near.len() implies after.visited.contains(
        (#[trigger] near[i]).address,
    ) by {
        assert(to[i] == near[i].address);
    }
    assert forall|i: int| 0 <= i < anew.len() implies exists|j: int|
        0 <= j < near.len() && (#[trigger] near[j]).address == #[trigger] anew[i] by {
        assert(to.contains(anew[i]));
        let j = choose|j: int| 0 <= j < to.len() && to[j] == anew[i];
        assert(near[j].address == anew[i]);
    }
    assert forall|k: int| 0 <= k < after.inflight.len() implies sent.awaits(
        #[trigger] after.inflight[k],
    ) by {
        assert(awaited(after.inflight[k]));
    }
    assert forall|k: int|
        0 <= k < q.inflight.len() && sent.awaits(
            #[trigger] q.inflight[k],
        ) implies after.inflight.contains(q.inflight[k]) by {
        assert(mid.inflight[k] == q.inflight[k]);
        assert(awaited(mid.inflight[k]));
    }
    assert forall|k: int| 0 <= k < after.inflight.len() implies q.inflight.contains(
        #[trigger] after.inflight[k],
    ) || exists|m: int|
        0 <= m < anew.len() && after.inflight[k] == #[trigger] nth_tid(socket, m) by {
        assert(mid.inflight.contains(after.inflight[k]));
        let p = choose|p: int|
            0 <= p < mid.inflight.len() && mid.inflight[p] == after.inflight[k];
        if p < q.inflight.len() {
            assert(q.inflight[p] == after.inflight[k]);
        } else {
            assert(after.inflight[k] == nth_tid(socket, p - q.inflight.len()));
        }
    }
    assert(mid.inflight =~= q.inflight + Seq::new(
        anew.len(),
        |m: int| nth_tid(socket, m) as u16,
    ));
    assert(awaited =~= (|tid: u16| sent.awaits(tid)));
    assert forall|m: int| 0 <= m < anew.len() implies after.inflight.contains(
        #[trigger] nth_tid(socket, m) as u16,
    ) by {
        let tid = mid.inflight[q.inflight.len() + m];
        assert(tid == nth_tid(socket, m));
        law_awaited_is_under_way(sent, tid);
        assert(sent.inflight[socket.inflight.len() + m].transaction_id == tid);
        assert(awaited(tid));
    }
}

/// The transaction of the request that a socket sends after `n` others.
pub open spec fn nth_tid(socket: SocketView, n: int) -> int {
    (socket.next_tid + n) % 0x1_0000
}

proof fn lemma_new_tids(q: QueryView, socket: SocketView, to: Seq<SocketAddr>, now: u64)
    ensures
        ({
            let (after, sent) = q.visit_all(socket, to, now);
            let more = after.visited.len() - q.visited.len();
            &&& 0 <= more
            &&& after.inflight.len() == q.inflight.len() + more
            &&& sent.next_tid == nth_tid(socket, more)
            &&& forall|i: int|
                0 <= i < q.inflight.len() ==> #[trigger] after.inflight[i] == q.inflight[i]
            &&& forall|i: int|
                q.inflight.len() <= i < after.inflight.len() ==> (#[trigger] after.inflight[i])
                    == nth_tid(socket, i - q.inflight.len())
        }),
    decreases to.len(),
{
    if to.len() > 0 {
        lemma_new_tids(q, socket, to.drop_last(), now);
    }
}

/// What a step of a store query does: of the answers that it waits for, those stay that the socket
/// awaits, in order; and where none stays, its receiver hears which nodes stored what it is about
/// and which were asked, and nothing otherwise.
pub proof fn law_what_a_step_of_a_store_query_does(q: StoreQueryView, socket: SocketView)
    ensures
        ({
            let (after, told) = q.tick(socket);
            &&& after.inflight == q.inflight.filter(|tid: u16| socket.awaits(tid))
            &&& after == StoreQueryView { inflight: after.inflight, ..q }
            &&& after.inflight.len() > 0 ==> told.len() == 0
            &&& after.inflight.len() == 0 ==> told == seq![
                EventView::Response {
                    to: q.sender,
                    message: ResponseMessageView::Stored {
                        target: q.target,
                        stored_at: q.stored_at,
                        closest_nodes: q.closest_nodes,
                    },
                },
            ]
        }),
{
    assert(awaited_by(socket) =~= (|tid: u16| socket.awaits(tid)));
}

/// The queries make their steps in turn: none before the first, each with the socket as the one
/// before it left it, and what it tells comes after what was told before.
pub proof fn law_queries_step_in_turn(node: RpcView, n: nat, now: u64)
    requires
        n < node.queries.len(),
    ensures
        ({
            let before = node.tick_queries(n, now);
            let after = node.tick_queries(n + 1, now);
            let (q, socket, told) = node.queries[n as int].tick(before.socket, now);
            &&& node.tick_queries(0, now) == node
            &&& after.queries == before.queries.update(n as int, q)
            &&& after.socket == socket
            &&& after.events == before.events + told
            &&& after == RpcView {
                queries: after.queries,
                socket: after.socket,
                events: after.events,
                ..before
            }
        }),
{
    lemma_not_yet_stepped(node, n, now);
}

proof fn lemma_not_yet_stepped(node: RpcView, n: nat, now: u64)
    requires
        n <= node.queries.len(),
    ensures
        node.tick_queries(n, now).queries.len() == node.queries.len(),
        forall|i: int|
            n <= i < node.queries.len() ==> #[trigger] node.tick_queries(n, now).queries[i]
                == node.queries[i],
    decreases n,
{
    if n > 0 {
        lemma_not_yet_stepped(node, (n - 1) as nat, now);
    }
}

/// The store queries make their steps in turn, and send nothing.
pub proof fn law_store_queries_step_in_turn(node: RpcView, n: nat)
    requires
        n < node.store_queries.len(),
    ensures
        ({
            let before = node.tick_store_queries(n);
            let after = node.tick_store_queries(n + 1);
            let (q, told) = node.store_queries[n as int].tick(node.socket);
            &&& node.tick_store_queries(0) == node
            &&& after.store_queries == before.store_queries.update(n as int, q)
            &&& after.socket == node.socket
            &&& after.events == before.events + told
            &&& after == RpcView {
                store_queries: after.store_queries,
                events: after.events,
                ..before
            }
        }),
{
    lemma_store_not_yet_stepped(node, n);
}

proof fn lemma_store_not_yet_stepped(node: RpcView, n: nat)
    requires
        n <= node.store_queries.len(),
    ensures
        node.tick_store_queries(n).socket == node.socket,
        node.tick_store_queries(n).store_queries.len() == node.store_queries.len(),
        forall|i: int|
            n <= i < node.store_queries.len() ==> #[trigger] node.tick_store_queries(
                n,
            ).store_queries[i] == node.store_queries[i],
    decreases n,
{
    if n > 0 {
        lemma_store_not_yet_stepped(node, (n - 1) as nat);
    }
}

/// What a node does of itself: every query and every store query makes a step, what is over is
/// taken out, and then the routing table is refreshed and pinged where that is due.
pub proof fn law_what_a_node_does_of_itself(
    node: RpcView,
    secret: Seq<u8>,
    found: Seq<SocketAddr>,
    now: u64,
)
    ensures
        node.maintain(secret, found, now) == after_steps(node, secret, now).maintain_queries(
            now,
        ).refresh_table(found, now).ping_table(now),
{
}

/// The secret behind the tokens changes where it is older than five minutes, and only there: the
/// new one is the one that was handed in, and the one before stays good.
pub proof fn law_secrets_change_every_five_minutes(
    node: RpcView,
    secret: Seq<u8>,
    found: Seq<SocketAddr>,
    now: u64,
)
    requires
        node.wf(),
    ensures
        ({
            let before = node.tokens;
            let after = node.maintain(secret, found, now).tokens;
            if now > before.last_updated + 300_000_000_000 {
                &&& after.prev_secret == before.curr_secret
                &&& after.curr_secret == secret
                &&& after.last_updated == now
            } else {
                after == before
            }
        }),
{
    let rotated = node.rotate_tokens(secret, now);
    law_tick_queries_keeps_wf(rotated, rotated.queries.len(), now);
    let walked = rotated.tick_queries(rotated.queries.len(), now);
    law_tick_store_queries_keeps_wf(walked, walked.store_queries.len());
}

/// What a node does of itself leaves its identifier, its hosts, its handler, and what it stores for
/// others as they are.
pub proof fn law_what_a_node_leaves_alone(
    node: RpcView,
    secret: Seq<u8>,
    found: Seq<SocketAddr>,
    now: u64,
)
    requires
        node.wf(),
    ensures
        ({
            let rotated = node.rotate_tokens(secret, now);
            let after = node.maintain(secret, found, now);
            &&& rotated == RpcView { tokens: rotated.tokens, ..node }
            &&& after.id == node.id
            &&& after.bootstrap == node.bootstrap
            &&& after.custom_request_handler == node.custom_request_handler
            &&& after.peers == node.peers
            &&& after.immutable_values == node.immutable_values
            &&& after.mutable_values == node.mutable_values
            &&& after.routing_table.id == node.routing_table.id
        }),
{
    let rotated = node.rotate_tokens(secret, now);
    law_tick_queries_keeps_wf(rotated, rotated.queries.len(), now);
    let walked = rotated.tick_queries(rotated.queries.len(), now);
    law_tick_store_queries_keeps_wf(walked, walked.store_queries.len());
}

// === What is over ===

proof fn lemma_put_all_members(list: Seq<ClosestView>, entries: Seq<ClosestView>)
    ensures
        ({
            let after = put_all_closest(list, entries);
            &&& forall|k: int|
                0 <= k < after.len() ==> list.contains(#[trigger] after[k]) || entries.contains(
                    after[k],
                )
            &&& forall|k: int|
                0 <= k < list.len() && (forall|e: int|
                    0 <= e < entries.len() ==> (#[trigger] entries[e]).target != list[k].target)
                    ==> after.contains(#[trigger] list[k])
        }),
    decreases entries.len(),
{
    let after = put_all_closest(list, entries);
    if entries.len() > 0 {
        let front = entries.drop_last();
        let last = entries.last();
        lemma_put_all_members(list, front);
        let before = put_all_closest(list, front);
        lemma_first_index(before, closest_about(last.target));
        let at = first_index(before, closest_about(last.target));
        assert forall|k: int| 0 <= k < after.len() implies list.contains(#[trigger] after[k])
            || entries.contains(after[k]) by {
            if k == at {
                assert(entries[entries.len() - 1] == after[k]);
            } else {
                assert(after[k] == before[k]);
                if front.contains(before[k]) {
                    let e = choose|e: int| 0 <= e < front.len() && front[e] == before[k];
                    assert(entries[e] == after[k]);
                }
            }
        }
        assert forall|k: int|
            0 <= k < list.len() && (forall|e: int|
                0 <= e < entries.len() ==> (#[trigger] entries[e]).target
                    != list[k].target) implies after.contains(#[trigger] list[k]) by {
            assert forall|e: int| 0 <= e < front.len() implies (#[trigger] front[e]).target
                != list[k].target by {
                assert(entries[e] == front[e]);
            }
            assert(before.contains(list[k]));
            let b = choose|b: int| 0 <= b < before.len() && before[b] == list[k];
            assert(entries[entries.len() - 1].target != list[k].target);
            if b == at {
                assert(closest_about(last.target)(before[b]));
            }
            assert(after[b] == list[k]);
        }
    } else {
        assert forall|k: int| 0 <= k < after.len() implies list.contains(#[trigger] after[k]) by {
            assert(list[k] == after[k]);
        }
        assert forall|k: int| 0 <= k < list.len() implies after.contains(#[trigger] list[k]) by {
            assert(after[k] == list[k]);
        }
    }
}

/// The result of a query: the nodes nearest to its target that handed out a token.
pub open spec fn result_of(q: QueryView, now: u64) -> ClosestView {
    ClosestView { target: q.target, nodes: q.responders.closest(q.target), found_at: now }
}

/// What is taken out: exactly the queries and the store queries that wait for no answer go, the
/// others stay in order. Of each query that goes the result is kept as of now; results of fifteen
/// minutes and less are kept unless a newer one is about their target; there are no other results.
pub proof fn law_what_is_over_is_taken_out(node: RpcView, now: u64)
    requires
        node.wf(),
    ensures
        ({
            let after = node.maintain_queries(now);
            &&& after.queries == node.queries.filter(|q: QueryView| q.inflight.len() > 0)
            &&& after.store_queries == node.store_queries.filter(
                |q: StoreQueryView| q.inflight.len() > 0,
            )
            &&& forall|i: int|
                0 <= i < node.queries.len() && (#[trigger] node.queries[i]).inflight.len() == 0
                    ==> after.closest_nodes.contains(result_of(node.queries[i], now))
            &&& forall|k: int|
                0 <= k < node.closest_nodes.len() && now <= (
                #[trigger] node.closest_nodes[k]).found_at + 900_000_000_000 && (forall|i: int|
                    0 <= i < node.queries.len() && (#[trigger] node.queries[i]).inflight.len() == 0
                        ==> node.queries[i].target != node.closest_nodes[k].target)
                    ==> after.closest_nodes.contains(node.closest_nodes[k])
            &&& forall|k: int|
                0 <= k < after.closest_nodes.len() ==> {
                    ||| node.closest_nodes.contains(#[trigger] after.closest_nodes[k]) && now
                        <= after.closest_nodes[k].found_at + 900_000_000_000
                    ||| exists|i: int|
                        0 <= i < node.queries.len() && node.queries[i].inflight.len() == 0
                            && after.closest_nodes[k] == result_of(#[trigger] node.queries[i], now)
                }
            &&& after == RpcView {
                queries: after.queries,
                store_queries: after.store_queries,
                closest_nodes: after.closest_nodes,
                events: after.events,
                ..node
            }
        }),
{
    let after = node.maintain_queries(now);
    assert(query_running() =~= (|q: QueryView| q.inflight.len() > 0));
    assert(store_running() =~= (|q: StoreQueryView| q.inflight.len() > 0));
    let over = node.queries.filter(query_over());
    let results = node.results(now);
    let kept = node.closest_nodes.filter(still_valid(now));
    lemma_filter_members(node.queries, query_over());
    lemma_filter_members(node.closest_nodes, still_valid(now));
    lemma_put_all_members(kept, results);
    crate::laws::upkeep::law_finished_queries_leave_their_results(node, now);
    lemma_filter_distinct(node.queries, |q: QueryView| q.target, query_over());
    assert forall|i: int|
        0 <= i < node.queries.len() && (
        #[trigger] node.queries[i]).inflight.len() == 0 implies after.closest_nodes.contains(
    result_of(node.queries[i], now)) by {
        assert(query_over()(node.queries[i]));
        assert(over.contains(node.queries[i]));
        let k = choose|k: int| 0 <= k < over.len() && over[k] == node.queries[i];
        assert(results[k] == result_of(node.queries[i], now));
        assert forall|a: int, b: int| 0 <= a < b < results.len() implies (
        #[trigger] results[a]).target != (#[trigger] results[b]).target by {
            assert(over[a].target != over[b].target);
        }
        lemma_put_all_keeps_each(kept, results, k);
    }
    assert forall|k: int|
        0 <= k < node.closest_nodes.len() && now <= (#[trigger] node.closest_nodes[k]).found_at
            + 900_000_000_000 && (forall|i: int|
            0 <= i < node.queries.len() && (#[trigger] node.queries[i]).inflight.len() == 0
                ==> node.queries[i].target
                != node.closest_nodes[k].target) implies after.closest_nodes.contains(
        node.closest_nodes[k],
    ) by {
        let c = node.closest_nodes[k];
        assert(still_valid(now)(c));
        assert(kept.contains(c));
        let m = choose|m: int| 0 <= m < kept.len() && kept[m] == c;
        assert forall|e: int| 0 <= e < results.len() implies (#[trigger] results[e]).target
            != kept[m].target by {
            assert(query_over()(over[e]));
            assert(node.queries.contains(over[e]));
            let i = choose|i: int| 0 <= i < node.queries.len() && node.queries[i] == over[e];
            assert(node.queries[i].inflight.len() == 0);
        }
        assert(after.closest_nodes.contains(kept[m]));
    }
    assert forall|k: int| 0 <= k < after.closest_nodes.len() implies {
        ||| node.closest_nodes.contains(#[trigger] after.closest_nodes[k]) && now
            <= after.closest_nodes[k].found_at + 900_000_000_000
        ||| exists|i: int|
            0 <= i < node.queries.len() && node.queries[i].inflight.len() == 0
                && after.closest_nodes[k] == result_of(#[trigger] node.queries[i], now)
    } by {
        let c = after.closest_nodes[k];
        if kept.contains(c) {
            let m = choose|m: int| 0 <= m < kept.len() && kept[m] == c;
            assert(still_valid(now)(kept[m]));
            assert(node.closest_nodes.contains(kept[m]));
        } else {
            assert(results.contains(c));
            let e = choose|e: int| 0 <= e < results.len() && results[e] == c;
            assert(query_over()(over[e]));
            assert(node.queries.contains(over[e]));
            let i = choose|i: int| 0 <= i < node.queries.len() && node.queries[i] == over[e];
            assert(c == result_of(node.queries[i], now));
        }
    }
}

/// Of several results about different targets, each is in the list after all were put.
proof fn lemma_put_all_keeps_each(list: Seq<ClosestView>, entries: Seq<ClosestView>, i: int)
    requires
        distinct_keys(entries, |c: ClosestView| c.target),
        0 <= i < entries.len(),
    ensures
        put_all_closest(list, entries).contains(entries[i]),
    decreases entries.len(),
{
    let front = entries.drop_last();
    let before = put_all_closest(list, front);
    let after = put_all_closest(list, entries);
    let last = entries.last();
    let at = first_index(before, closest_about(last.target));
    lemma_first_index(before, closest_about(last.target));
    if i < front.len() {
        assert(distinct_keys(front, |c: ClosestView| c.target)) by {
            assert forall|a: int, b: int| 0 <= a < b < front.len() implies (
            #[trigger] front[a]).target != (#[trigger] front[b]).target by {
                assert(entries[a].target != entries[b].target);
            }
        }
        lemma_put_all_keeps_each(list, front, i);
        let k = choose|k: int| 0 <= k < before.len() && before[k] == front[i];
        assert(entries[i].target != entries[entries.len() - 1].target);
        if k == at {
            assert(closest_about(last.target)(before[k]));
        }
        assert(after[k] == entries[i]);
    } else {
        assert(after[at] == entries[i]);
    }
}

/// The end of the look-up of the own identifier is told, as a failure where the routing table is
/// empty and with the number of nodes in it otherwise; the end of no other query is told in this
/// way.
pub proof fn law_the_end_of_bootstrapping_is_told(node: RpcView, now: u64)
    requires
        node.wf(),
    ensures
        ({
            let after = node.maintain_queries(now);
            let size = node.routing_table.nodes.len();
            if exists|i: int|
                0 <= i < node.queries.len() && (#[trigger] node.queries[i]).target == node.id
                    && node.queries[i].inflight.len() == 0 {
                after.events == node.events.push(
                    if size == 0 {
                        EventView::BootstrapFailed
                    } else {
                        EventView::Bootstrapped { table_size: size }
                    },
                )
            } else {
                after.events == node.events
            }
        }),
{
    let after = node.maintain_queries(now);
    let over = node.queries.filter(query_over());
    let own = over.filter(query_about(node.id));
    lemma_filter_members(node.queries, query_over());
    lemma_filter_members(over, query_about(node.id));
    lemma_filter_distinct(node.queries, |q: QueryView| q.target, query_over());
    lemma_filter_distinct(over, |q: QueryView| q.target, query_about(node.id));
    assert(own.len() <= 1) by {
        if own.len() > 1 {
            assert(query_about(node.id)(own[0]));
            assert(query_about(node.id)(own[1]));
            assert(own[0].target != own[1].target);
        }
    }
    if exists|i: int|
        0 <= i < node.queries.len() && (#[trigger] node.queries[i]).target == node.id
            && node.queries[i].inflight.len() == 0 {
        let i = choose|i: int|
            0 <= i < node.queries.len() && (#[trigger] node.queries[i]).target == node.id
                && node.queries[i].inflight.len() == 0;
        assert(query_over()(node.queries[i]));
        assert(over.contains(node.queries[i]));
        let k = choose|k: int| 0 <= k < over.len() && over[k] == node.queries[i];
        assert(query_about(node.id)(over[k]));
        assert(own.contains(over[k]));
        assert(own.len() == 1);
        let event = node.bootstrap_events()[0];
        assert(after.events =~= node.events.push(event));
    } else {
        assert(own.len() == 0) by {
            if own.len() > 0 {
                assert(query_about(node.id)(own[0]));
                assert(over.contains(own[0]));
                let k = choose|k: int| 0 <= k < over.len() && over[k] == own[0];
                assert(query_over()(over[k]));
                assert(node.queries.contains(over[k]));
                let i = choose|i: int| 0 <= i < node.queries.len() && node.queries[i] == over[k];
                assert(node.queries[i].target == node.id);
            }
        }
        assert(after.events =~= node.events);
    }
}

// === The routing table ===

/// A refresh comes exactly where the routing table is empty and was not refreshed for fifteen
/// minutes: then the node looks up its own identifier, for no receiver, and counts from now.
pub proof fn law_when_the_table_is_refreshed(node: RpcView, found: Seq<SocketAddr>, now: u64)
    ensures
        ({
            let after = node.refresh_table(found, now);
            if node.routing_table.nodes.len() == 0 && now > node.last_table_refresh
                + 900_000_000_000 {
                after == RpcView { last_table_refresh: now, ..node }.query(
                    node.id,
                    RequestView::FindNode { requester_id: node.id, target: node.id },
                    None,
                    found,
                    now,
                )
            } else {
                after == node
            }
        }),
{
}

/// Every five minutes, and not before, the routing table is gone through: the nodes that were not
/// heard of for fifteen minutes leave, and no other; of those that stay, exactly the ones that were
/// not heard of for ten seconds are pinged, each once and in order, and nobody else.
pub proof fn law_when_the_table_is_pinged(node: RpcView, now: u64)
    ensures
        ({
            let after = node.ping_table(now);
            let nodes = node.routing_table.nodes;
            let pinged = nodes.filter(
                |n: NodeView|
                    now <= n.last_seen + 900_000_000_000 && now > n.last_seen + 10_000_000_000,
            );
            if now > node.last_table_ping + 300_000_000_000 {
                &&& after.last_table_ping == now
                &&& after.routing_table.id == node.routing_table.id
                &&& after.routing_table.nodes == nodes.filter(
                    |n: NodeView| now <= n.last_seen + 900_000_000_000,
                )
                &&& exists|to: Seq<SocketAddr>|
                    {
                        &&& #[trigger] to.len() == pinged.len()
                        &&& forall|i: int|
                            0 <= i < to.len() ==> #[trigger] to[i] == pinged[i].address
                        &&& sends(
                            node.socket,
                            after.socket,
                            to,
                            RequestView::Ping { requester_id: node.id },
                            now,
                        )
                    }
                &&& after == RpcView {
                    last_table_ping: now,
                    routing_table: after.routing_table,
                    socket: after.socket,
                    ..node
                }
            } else {
                after == node
            }
        }),
{
    let nodes = node.routing_table.nodes;
    let stays = |n: NodeView| now <= n.last_seen + 900_000_000_000;
    let silent = |n: NodeView|
        now <= n.last_seen + 900_000_000_000 && now > n.last_seen + 10_000_000_000;
    assert(not_stale(now) =~= stays) by {
        assert forall|n: NodeView| #[trigger] stays(n) == not_stale(now)(n) by {}
    }
    assert(to_ping(now) =~= silent) by {
        assert forall|n: NodeView| #[trigger] silent(n) == to_ping(now)(n) by {}
    }
    let pinged = nodes.filter(to_ping(now));
    let to = addresses(pinged);
    law_requests_go_to_every_address(
        node.socket,
        to,
        RequestView::Ping { requester_id: node.id },
        now,
    );
    assert(to.len() == pinged.len());
}

} // verus!
