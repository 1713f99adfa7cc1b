//! What holds of the routing table.

use crate::id::Id;
use crate::node::NodeView;
use crate::routing_table::{count, has_id, in_bucket, TableView};
use crate::seqs::{first_index, lemma_filter_members, lemma_filter_push, lemma_first_index};
use vstd::prelude::*;

verus! {

/// How many of the first `n` nodes of a list are at a bit distance from an identifier.
pub open spec fn at_distance(nodes: Seq<NodeView>, own: Id, distance: nat, n: nat) -> nat
    decreases n,
{
    if n == 0 || n > nodes.len() {
        0
    } else {
        at_distance(nodes, own, distance, (n - 1) as nat) + if own.spec_distance(
            nodes[n - 1].id,
        ) == distance {
            1nat
        } else {
            0
        }
    }
}

/// Counting the nodes of a bucket one by one.
proof fn lemma_at_distance(nodes: Seq<NodeView>, own: Id, distance: nat, n: nat)
    requires
        n <= nodes.len(),
    ensures
        at_distance(nodes, own, distance, n) == count(
            nodes.take(n as int),
            in_bucket(own, distance),
        ),
    decreases n,
{
    reveal(Seq::filter);
    if n > 0 {
        lemma_at_distance(nodes, own, distance, (n - 1) as nat);
        let front = nodes.take(n - 1);
        lemma_filter_push(front, in_bucket(own, distance), nodes[n - 1]);
        assert(front.push(nodes[n - 1]) =~= nodes.take(n as int));
    }
}

/// A node that a table does not know goes to its end where fewer than twenty nodes are in its
/// bucket, and nothing else changes.
pub proof fn law_new_nodes_are_added(table: TableView, node: NodeView, now: u64)
    requires
        node.id != table.id,
        forall|i: int| 0 <= i < table.nodes.len() ==> (#[trigger] table.nodes[i]).id != node.id,
        at_distance(
            table.nodes,
            table.id,
            table.id.spec_distance(node.id),
            table.nodes.len(),
        ) < 20,
    ensures
        table.add(node, now) == (TableView { id: table.id, nodes: table.nodes.push(node) }),
        table.add(node, now).nodes.contains(node),
{
    let n = table.nodes.len();
    lemma_at_distance(table.nodes, table.id, table.id.spec_distance(node.id), n);
    assert(table.nodes.take(n as int) =~= table.nodes);
    lemma_first_index(table.nodes, has_id(node.id));
    let after = table.add(node, now);
    assert(after.nodes[n as int] == node);
}

/// A node that a table knows at the same address goes to its end as it is now, and nothing else
/// changes.
pub proof fn law_known_nodes_are_renewed(table: TableView, node: NodeView, now: u64, i: int)
    requires
        table.wf(),
        0 <= i < table.nodes.len(),
        table.nodes[i].id == node.id,
        table.nodes[i].address == node.address,
    ensures
        table.add(node, now) == (TableView {
            id: table.id,
            nodes: table.nodes.remove(i).push(node),
        }),
        table.add(node, now).nodes.contains(node),
{
    lemma_first_index(table.nodes, has_id(node.id));
    assert(has_id(node.id)(table.nodes[i]));
    let known = first_index(table.nodes, has_id(node.id));
    assert(known == i) by {
        if known < i {
            assert(table.nodes[known].id != table.nodes[i].id);
        }
    }
    let after = table.add(node, now);
    assert(after.nodes[after.nodes.len() - 1] == node);
}

/// A table does not change for its own identifier, nor for an identifier that it knows at another
/// address.
pub proof fn law_some_nodes_are_not_added(table: TableView, node: NodeView, now: u64)
    requires
        table.wf(),
        node.id == table.id || exists|i: int|
            0 <= i < table.nodes.len() && (#[trigger] table.nodes[i]).id == node.id
                && table.nodes[i].address != node.address,
    ensures
        table.add(node, now) == table,
{
    if node.id != table.id {
        let i = choose|i: int|
            0 <= i < table.nodes.len() && (#[trigger] table.nodes[i]).id == node.id
                && table.nodes[i].address != node.address;
        lemma_first_index(table.nodes, has_id(node.id));
        assert(has_id(node.id)(table.nodes[i]));
        let known = first_index(table.nodes, has_id(node.id));
        if known < i {
            assert(table.nodes[known].id != table.nodes[i].id);
        }
    }
}

/// A node that a table does not know takes the place of the oldest node of a full bucket where that
/// one was not heard of for fifteen minutes, and of none otherwise.
pub proof fn law_full_buckets_give_way_to_the_stale(
    table: TableView,
    node: NodeView,
    now: u64,
    oldest: int,
)
    requires
        node.id != table.id,
        forall|i: int| 0 <= i < table.nodes.len() ==> (#[trigger] table.nodes[i]).id != node.id,
        at_distance(
            table.nodes,
            table.id,
            table.id.spec_distance(node.id),
            table.nodes.len(),
        ) >= 20,
        0 <= oldest < table.nodes.len(),
        table.id.spec_distance(table.nodes[oldest].id) == table.id.spec_distance(node.id),
        forall|i: int|
            0 <= i < oldest ==> table.id.spec_distance((#[trigger] table.nodes[i]).id)
                != table.id.spec_distance(node.id),
    ensures
        table.add(node, now) == if now > table.nodes[oldest].last_seen + 900_000_000_000 {
            TableView { id: table.id, nodes: table.nodes.remove(oldest).push(node) }
        } else {
            table
        },
{
    let n = table.nodes.len();
    let bucket = in_bucket(table.id, table.id.spec_distance(node.id));
    lemma_at_distance(table.nodes, table.id, table.id.spec_distance(node.id), n);
    assert(table.nodes.take(n as int) =~= table.nodes);
    lemma_first_index(table.nodes, has_id(node.id));
    lemma_first_index(table.nodes, bucket);
    assert(bucket(table.nodes[oldest]));
    let at = first_index(table.nodes, bucket);
    if at < oldest {
        assert(bucket(table.nodes[at]));
    }
}

/// Adding nodes is adding them one after the other: nobody's nodes is no change, one node is that
/// node, and two lists are one and then the other.
pub proof fn law_nodes_are_added_one_by_one(
    table: TableView,
    first: Seq<NodeView>,
    second: Seq<NodeView>,
    node: NodeView,
    now: u64,
)
    ensures
        table.add_all(Seq::empty(), now) == table,
        table.add_all(seq![node], now) == table.add(node, now),
        table.add_all(first + second, now) == table.add_all(first, now).add_all(second, now),
    decreases second.len(),
{
    assert(seq![node].drop_last() =~= Seq::empty());
    reveal_with_fuel(TableView::add_all, 3);
    if second.len() > 0 {
        law_nodes_are_added_one_by_one(table, first, second.drop_last(), node, now);
        assert((first + second).drop_last() =~= first + second.drop_last());
        assert((first + second).last() == second.last());
    } else {
        assert(first + second =~= first);
    }
}

/// A list of up to twenty different nodes, added to a table without nodes, is in it whole and in
/// order, but for the table's own identifier.
pub proof fn law_few_nodes_all_fit(own: Id, nodes: Seq<NodeView>, now: u64)
    requires
        nodes.len() <= 20,
        forall|i: int, j: int|
            0 <= i < j < nodes.len() ==> (#[trigger] nodes[i]).id != (#[trigger] nodes[j]).id,
    ensures
        (TableView { id: own, nodes: Seq::empty() }).add_all(nodes, now) == (TableView {
            id: own,
            nodes: nodes.filter(|n: NodeView| n.id != own),
        }),
    decreases nodes.len(),
{
    reveal(Seq::filter);
    let start = TableView { id: own, nodes: Seq::empty() };
    let other = |n: NodeView| n.id != own;
    if nodes.len() > 0 {
        let front = nodes.drop_last();
        let last = nodes.last();
        assert forall|i: int, j: int| 0 <= i < j < front.len() implies (#[trigger] front[i]).id != (
        #[trigger] front[j]).id by {
            assert(nodes[i].id != nodes[j].id);
        }
        law_few_nodes_all_fit(own, front, now);
        let before = start.add_all(front, now);
        lemma_filter_members(front, other);
        assert(before.nodes == front.filter(other)) by {
            assert(front.filter(|n: NodeView| n.id != own) == front.filter(other));
        }
        lemma_filter_push(front, other, last);
        assert(front.push(last) =~= nodes);
        if last.id != own {
            assert forall|i: int| 0 <= i < before.nodes.len() implies (
            #[trigger] before.nodes[i]).id != last.id by {
                assert(front.contains(before.nodes[i]));
                let k = choose|k: int| 0 <= k < front.len() && front[k] == before.nodes[i];
                assert(nodes[k].id != nodes[nodes.len() - 1].id);
            }
            lemma_at_distance_bound(
                before.nodes,
                own,
                own.spec_distance(last.id),
                before.nodes.len(),
            );
            law_new_nodes_are_added(before, last, now);
        }
    }
}

proof fn lemma_at_distance_bound(nodes: Seq<NodeView>, own: Id, distance: nat, n: nat)
    ensures
        at_distance(nodes, own, distance, n) <= n,
    decreases n,
{
    if n > 0 && n <= nodes.len() {
        lemma_at_distance_bound(nodes, own, distance, (n - 1) as nat);
    }
}

/// Removing an identifier leaves all the other nodes, in order.
pub proof fn law_removing_takes_out_one(table: TableView, id: Id)
    requires
        table.wf(),
    ensures
        table.remove(id) == (TableView {
            id: table.id,
            nodes: table.nodes.filter(|n: NodeView| n.id != id),
        }),
{
    let other = |n: NodeView| n.id != id;
    let nodes = table.nodes;
    let at = first_index(nodes, has_id(id));
    lemma_first_index(nodes, has_id(id));
    if at < nodes.len() {
        let head = nodes.take(at);
        let tail = nodes.skip(at + 1);
        assert(nodes =~= head + seq![nodes[at]] + tail);
        assert(has_id(id)(nodes[at]));
        lemma_filter_all(head, other);
        assert forall|i: int| 0 <= i < tail.len() implies other(#[trigger] tail[i]) by {
            assert(nodes[at].id != nodes[at + 1 + i].id);
        }
        lemma_filter_all(tail, other);
        Seq::filter_distributes_over_add(head + seq![nodes[at]], tail, other);
        assert(head + seq![nodes[at]] =~= head.push(nodes[at]));
        lemma_filter_push(head, other, nodes[at]);
        assert(nodes.remove(at) =~= head + tail);
    } else {
        assert forall|i: int| 0 <= i < nodes.len() implies other(#[trigger] nodes[i]) by {
            assert(!has_id(id)(nodes[i]));
        }
        lemma_filter_all(nodes, other);
    }
}

/// Filtering by what holds of every element changes nothing.
proof fn lemma_filter_all<A>(s: Seq<A>, pred: spec_fn(A) -> bool)
    requires
        forall|i: int| 0 <= i < s.len() ==> pred(#[trigger] s[i]),
    ensures
        s.filter(pred) == s,
    decreases s.len(),
{
    reveal(Seq::filter);
    if s.len() > 0 {
        lemma_filter_all(s.drop_last(), pred);
        assert(s.drop_last().push(s.last()) =~= s);
    }
}

} // verus!
