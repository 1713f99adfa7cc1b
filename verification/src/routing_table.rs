//! The routing table: the nodes that a node knows, sorted into buckets by distance.

use crate::id::Id;
use crate::node::{clone_nodes, node_views, Node, NodeView};
use crate::seqs::{
    distinct_keys, first_index, lemma_filter_distinct, lemma_filter_members, lemma_filter_push,
    lemma_filter_take, lemma_first_index, lemma_first_index_is,
};
use vstd::prelude::*;

verus! {

/// How many nodes a bucket holds, and how many nodes a look-up gives.
pub const MAX_BUCKET_SIZE_K: usize = 20;

/// The nodes that a node knows, without itself.
///
/// Nodes at one bit distance from the table's own identifier share a bucket, which holds at most
/// [`MAX_BUCKET_SIZE_K`] of them. Nodes are kept in the order in which they were last added.
#[derive(Debug)]
pub struct RoutingTable {
    id: Id,
    nodes: Vec<Node>,
}

/// What a [`RoutingTable`] holds.
#[verifier::ext_equal]
pub struct TableView {
    pub id: Id,
    pub nodes: Seq<NodeView>,
}

impl View for RoutingTable {
    type V = TableView;

    closed spec fn view(&self) -> TableView {
        TableView { id: self.id, nodes: node_views(self.nodes@) }
    }
}

/// Whether a node carries `id`.
pub open spec fn has_id(id: Id) -> spec_fn(NodeView) -> bool {
    |n: NodeView| n.id == id
}

/// Whether a node belongs in the bucket at `distance` from `own`.
pub open spec fn in_bucket(own: Id, distance: nat) -> spec_fn(NodeView) -> bool {
    |n: NodeView| own.spec_distance(n.id) == distance
}

/// How many elements satisfy a predicate.
pub open spec fn count(nodes: Seq<NodeView>, pred: spec_fn(NodeView) -> bool) -> nat {
    nodes.filter(pred).len()
}

/// Puts a node into a list that is sorted by distance from `target`, nearest first.
pub open spec fn insert_sorted(sorted: Seq<NodeView>, node: NodeView, target: Id) -> Seq<NodeView>
    decreases sorted.len(),
{
    if sorted.len() == 0 || !(node.id.metric(target) < sorted.last().id.metric(target)) {
        sorted.push(node)
    } else {
        insert_sorted(sorted.drop_last(), node, target).push(sorted.last())
    }
}

/// The nodes of a list, sorted by distance from `target`, nearest first.
pub open spec fn by_distance(nodes: Seq<NodeView>, target: Id) -> Seq<NodeView>
    decreases nodes.len(),
{
    if nodes.len() == 0 {
        nodes
    } else {
        insert_sorted(by_distance(nodes.drop_last(), target), nodes.last(), target)
    }
}

/// The first elements of a sequence, at most `n` of them.
pub open spec fn at_most<A>(s: Seq<A>, n: nat) -> Seq<A> {
    if s.len() <= n {
        s
    } else {
        s.take(n as int)
    }
}

impl TableView {
    /// A table without nodes.
    pub open spec fn empty(id: Id) -> TableView {
        TableView { id, nodes: Seq::empty() }
    }

    /// What every table keeps: no identifier occurs twice, the own one not at all, and no bucket
    /// is overfull.
    pub open spec fn wf(self) -> bool {
        &&& distinct_keys(self.nodes, |n: NodeView| n.id)
        &&& forall|i: int| 0 <= i < self.nodes.len() ==> (#[trigger] self.nodes[i]).id != self.id
        &&& forall|d: nat| #[trigger] count(self.nodes, in_bucket(self.id, d)) <= MAX_BUCKET_SIZE_K
    }

    /// Adding a node.
    ///
    /// The own identifier is not added. A known node that speaks from the address it is known at
    /// takes its new state and goes to the end; from another address it is ignored. A new node
    /// goes to the end where its bucket has room, or where the oldest node of the bucket is stale
    /// and leaves.
    pub open spec fn add(self, node: NodeView, now: u64) -> TableView {
        let known = first_index(self.nodes, has_id(node.id));
        let bucket = in_bucket(self.id, self.id.spec_distance(node.id));
        let oldest = first_index(self.nodes, bucket);
        if node.id == self.id {
            self
        } else if known < self.nodes.len() {
            if self.nodes[known].address == node.address {
                TableView { nodes: self.nodes.remove(known).push(node), ..self }
            } else {
                self
            }
        } else if count(self.nodes, bucket) < MAX_BUCKET_SIZE_K {
            TableView { nodes: self.nodes.push(node), ..self }
        } else if self.nodes[oldest].is_stale(now) {
            TableView { nodes: self.nodes.remove(oldest).push(node), ..self }
        } else {
            self
        }
    }

    /// Adding nodes one after the other.
    pub open spec fn add_all(self, nodes: Seq<NodeView>, now: u64) -> TableView
        decreases nodes.len(),
    {
        if nodes.len() == 0 {
            self
        } else {
            self.add_all(nodes.drop_last(), now).add(nodes.last(), now)
        }
    }

    /// Removing the node with an identifier, where there is one.
    pub open spec fn remove(self, id: Id) -> TableView {
        let known = first_index(self.nodes, has_id(id));
        if known < self.nodes.len() {
            TableView { nodes: self.nodes.remove(known), ..self }
        } else {
            self
        }
    }

    /// The nodes nearest to `target`, nearest first, at most [`MAX_BUCKET_SIZE_K`] of them.
    pub open spec fn closest(self, target: Id) -> Seq<NodeView> {
        at_most(by_distance(self.nodes, target), MAX_BUCKET_SIZE_K as nat)
    }
}

impl RoutingTable {
    /// A table without nodes.
    pub fn new(id: Id) -> (r: RoutingTable)
        ensures
            r@ == TableView::empty(id),
    {
        let r = RoutingTable { id, nodes: Vec::new() };
        assert(r@ =~= TableView::empty(id));
        r
    }

    /// How many nodes the table holds.
    pub fn size(&self) -> (r: usize)
        ensures
            r == self@.nodes.len(),
    {
        self.nodes.len()
    }

    /// Whether the table holds no node.
    pub fn is_empty(&self) -> (r: bool)
        ensures
            r == (self@.nodes.len() == 0),
    {
        self.nodes.len() == 0
    }

    /// The nodes of the table, longest unheard of first.
    pub fn to_vec(&self) -> (r: Vec<Node>)
        ensures
            node_views(r@) == self@.nodes,
    {
        clone_nodes(&self.nodes)
    }

    /// The index of the node with an identifier, or the number of nodes.
    fn position(&self, id: &Id) -> (r: usize)
        ensures
            r == first_index(self@.nodes, has_id(*id)),
            r <= self.nodes.len(),
    {
        let mut i: usize = 0;
        while i < self.nodes.len() && self.nodes[i].id != *id
            invariant
                i <= self.nodes.len(),
                forall|j: int| 0 <= j < i ==> !has_id(*id)(#[trigger] self@.nodes[j]),
            decreases self.nodes.len() - i,
        {
            i = i + 1;
        }
        proof {
            lemma_first_index_is(self@.nodes, has_id(*id), i as int);
        }
        i
    }

    /// How many nodes the bucket at `distance` holds, and where the first of them is.
    fn bucket(&self, distance: u8) -> (r: (usize, usize))
        ensures
            r.0 == count(self@.nodes, in_bucket(self@.id, distance as nat)),
            r.1 == first_index(self@.nodes, in_bucket(self@.id, distance as nat)),
            r.1 <= self.nodes.len(),
            r.0 > 0 ==> r.1 < self.nodes.len(),
    {
        let ghost pred = in_bucket(self@.id, distance as nat);
        let mut found: usize = 0;
        let mut first: usize = self.nodes.len();
        let mut i: usize = 0;
        proof {
            reveal(Seq::filter);
            assert(self@.nodes.take(0).filter(pred).len() == 0);
        }
        while i < self.nodes.len()
            invariant
                i <= self.nodes.len(),
                pred == in_bucket(self@.id, distance as nat),
                found == count(self@.nodes.take(i as int), pred),
                found <= i,
                found == 0 ==> first == self.nodes.len() && forall|j: int|
                    0 <= j < i ==> !pred(#[trigger] self@.nodes[j]),
                found > 0 ==> first < i && pred(self@.nodes[first as int]) && forall|j: int|
                    0 <= j < first ==> !pred(#[trigger] self@.nodes[j]),
            decreases self.nodes.len() - i,
        {
            proof {
                lemma_filter_take(self@.nodes, pred, i as int);
            }
            if self.id.distance(&self.nodes[i].id) == distance {
                if found == 0 {
                    first = i;
                }
                found = found + 1;
            }
            i = i + 1;
        }
        proof {
            assert(self@.nodes.take(self.nodes.len() as int) =~= self@.nodes);
            lemma_first_index_is(self@.nodes, pred, first as int);
        }
        (found, first)
    }

    /// Adds a node, as [`TableView::add`] says.
    pub fn add(&mut self, node: Node, now: u64)
        ensures
            final(self)@ == old(self)@.add(node@, now),
    {
        let distance: u8 = self.id.distance(&node.id);
        if self.id == node.id {
            return;
        }
        let known: usize = self.position(&node.id);
        let (found, oldest) = self.bucket(distance);
        let ghost before = self@.nodes;
        let ghost nodes = self.nodes@;
        if known < self.nodes.len() {
            if self.nodes[known].address == node.address {
                self.nodes.remove(known);
                self.nodes.push(node);
                assert(self@.nodes =~= before.remove(known as int).push(node@));
            }
        } else if found < MAX_BUCKET_SIZE_K {
            self.nodes.push(node);
            assert(self@.nodes =~= before.push(node@));
        } else if self.nodes[oldest].is_stale(now) {
            self.nodes.remove(oldest);
            self.nodes.push(node);
            assert(self@.nodes =~= before.remove(oldest as int).push(node@));
        }
    }

    /// Removes the node with an identifier, where there is one.
    pub fn remove(&mut self, id: &Id)
        ensures
            final(self)@ == old(self)@.remove(*id),
    {
        let known: usize = self.position(id);
        let ghost before = self@.nodes;
        if known < self.nodes.len() {
            self.nodes.remove(known);
            assert(self@.nodes =~= before.remove(known as int));
        }
    }

    /// The nodes nearest to `target`, nearest first, at most [`MAX_BUCKET_SIZE_K`] of them.
    pub fn closest(&self, target: &Id) -> (r: Vec<Node>)
        ensures
            node_views(r@) == self@.closest(*target),
            r@.len() <= MAX_BUCKET_SIZE_K,
    {
        let mut sorted: Vec<Node> = Vec::new();
        let mut i: usize = 0;
        assert(node_views(sorted@) =~= by_distance(self@.nodes.take(0), *target));
        while i < self.nodes.len()
            invariant
                i <= self.nodes.len(),
                node_views(sorted@) == by_distance(self@.nodes.take(i as int), *target),
            decreases self.nodes.len() - i,
        {
            let node = self.nodes[i].clone();
            let ghost before = node_views(sorted@);
            let mut at: usize = sorted.len();
            proof {
                assert(before.take(at as int) =~= before);
                assert(before.skip(at as int) =~= Seq::<NodeView>::empty());
            }
            while at > 0 && node.id.nearer(&sorted[at - 1].id, target)
                invariant
                    at <= sorted.len(),
                    before == node_views(sorted@),
                    insert_sorted(before, node@, *target) =~= insert_sorted(
                        before.take(at as int),
                        node@,
                        *target,
                    ) + before.skip(at as int),
                decreases at,
            {
                proof {
                    let head = before.take(at as int);
                    assert(head.last() == sorted@[at - 1]@);
                    assert(head.drop_last() =~= before.take(at - 1));
                    assert(before.skip(at - 1) =~= seq![head.last()] + before.skip(at as int));
                }
                at = at - 1;
            }
            proof {
                let head = before.take(at as int);
                if at > 0 {
                    assert(head.last() == sorted@[at - 1]@);
                }
                assert(insert_sorted(head, node@, *target) == head.push(node@));
                assert(before.insert(at as int, node@) =~= head.push(node@) + before.skip(
                    at as int,
                ));
            }
            sorted.insert(at, node);
            proof {
                assert(node_views(sorted@) =~= before.insert(at as int, node@));
                let upto = self@.nodes.take(i as int + 1);
                assert(upto.drop_last() =~= self@.nodes.take(i as int));
                assert(upto.last() == self.nodes@[i as int]@);
            }
            i = i + 1;
        }
        proof {
            assert(self@.nodes.take(self.nodes.len() as int) =~= self@.nodes);
        }
        let ghost all = node_views(sorted@);
        if sorted.len() > MAX_BUCKET_SIZE_K {
            sorted.truncate(MAX_BUCKET_SIZE_K);
            assert(node_views(sorted@) =~= all.take(MAX_BUCKET_SIZE_K as int));
        }
        sorted
    }
}

impl Clone for RoutingTable {
    fn clone(&self) -> (r: RoutingTable)
        ensures
            r@ == self@,
    {
        RoutingTable { id: self.id, nodes: clone_nodes(&self.nodes) }
    }
}

/// Taking out one element takes one off the count where it satisfies the predicate.
proof fn lemma_count_remove(nodes: Seq<NodeView>, index: int, pred: spec_fn(NodeView) -> bool)
    requires
        0 <= index < nodes.len(),
    ensures
        count(nodes.remove(index), pred) == count(nodes, pred) - if pred(nodes[index]) {
            1int
        } else {
            0
        },
{
    let head = nodes.take(index);
    let tail = nodes.skip(index + 1);
    assert(nodes.remove(index) =~= head + tail);
    assert(nodes =~= head.push(nodes[index]) + tail);
    Seq::filter_distributes_over_add(head, tail, pred);
    Seq::filter_distributes_over_add(head.push(nodes[index]), tail, pred);
    lemma_filter_push(head, pred, nodes[index]);
}

/// Adding a node keeps what every table keeps.
pub proof fn law_add_keeps_invariant(table: TableView, node: NodeView, now: u64)
    requires
        table.wf(),
    ensures
        table.add(node, now).wf(),
        table.add(node, now).id == table.id,
{
    let after = table.add(node, now);
    let known = first_index(table.nodes, has_id(node.id));
    let bucket = in_bucket(table.id, table.id.spec_distance(node.id));
    let oldest = first_index(table.nodes, bucket);
    lemma_first_index(table.nodes, has_id(node.id));
    lemma_first_index(table.nodes, bucket);
    lemma_filter_members(table.nodes, bucket);
    if count(table.nodes, bucket) >= MAX_BUCKET_SIZE_K {
        let member = table.nodes.filter(bucket)[0];
        let i = choose|i: int| 0 <= i < table.nodes.len() && table.nodes[i] == member;
        assert(bucket(table.nodes[i]));
    }
    assert forall|d: nat| #[trigger] count(after.nodes, in_bucket(after.id, d))
        <= MAX_BUCKET_SIZE_K by {
        let pred = in_bucket(table.id, d);
        assert(count(table.nodes, pred) <= MAX_BUCKET_SIZE_K);
        if known < table.nodes.len() {
            lemma_count_remove(table.nodes, known, pred);
            lemma_filter_push(table.nodes.remove(known), pred, node);
        } else if count(table.nodes, bucket) < MAX_BUCKET_SIZE_K {
            lemma_filter_push(table.nodes, pred, node);
            if pred(node) {
                assert(pred =~= bucket);
            }
        } else {
            lemma_count_remove(table.nodes, oldest, pred);
            lemma_filter_push(table.nodes.remove(oldest), pred, node);
            if pred(node) {
                assert(pred =~= bucket);
            }
        }
    }
}

/// Adding nodes one after the other keeps what every table keeps.
pub proof fn law_add_all_keeps_invariant(table: TableView, nodes: Seq<NodeView>, now: u64)
    requires
        table.wf(),
    ensures
        table.add_all(nodes, now).wf(),
        table.add_all(nodes, now).id == table.id,
    decreases nodes.len(),
{
    if nodes.len() > 0 {
        law_add_all_keeps_invariant(table, nodes.drop_last(), now);
        law_add_keeps_invariant(table.add_all(nodes.drop_last(), now), nodes.last(), now);
    }
}

/// A part of a table, in the same order, keeps what every table keeps.
pub proof fn law_filter_keeps_invariant(table: TableView, keep: spec_fn(NodeView) -> bool)
    requires
        table.wf(),
    ensures
        (TableView { nodes: table.nodes.filter(keep), ..table }).wf(),
{
    let after = TableView { nodes: table.nodes.filter(keep), ..table };
    lemma_filter_distinct(table.nodes, |n: NodeView| n.id, keep);
    lemma_filter_members(table.nodes, keep);
    assert forall|i: int| 0 <= i < after.nodes.len() implies (#[trigger] after.nodes[i]).id
        != after.id by {
        assert(table.nodes.contains(after.nodes[i]));
    }
    assert forall|d: nat| #[trigger] count(after.nodes, in_bucket(after.id, d))
        <= MAX_BUCKET_SIZE_K by {
        lemma_count_filter(table.nodes, keep, in_bucket(table.id, d));
        assert(count(table.nodes, in_bucket(table.id, d)) <= MAX_BUCKET_SIZE_K);
    }
}

proof fn lemma_count_filter(
    nodes: Seq<NodeView>,
    keep: spec_fn(NodeView) -> bool,
    pred: spec_fn(NodeView) -> bool,
)
    ensures
        count(nodes.filter(keep), pred) <= count(nodes, pred),
    decreases nodes.len(),
{
    reveal(Seq::filter);
    if nodes.len() > 0 {
        let front = nodes.drop_last();
        lemma_count_filter(front, keep, pred);
        lemma_filter_push(front.filter(keep), pred, nodes.last());
    }
}

/// Whether a list is sorted by distance from `target`, nearest first.
pub open spec fn sorted_by_distance(nodes: Seq<NodeView>, target: Id) -> bool {
    forall|i: int, j: int|
        0 <= i <= j < nodes.len() ==> (#[trigger] nodes[i]).id.metric(target) <= (
        #[trigger] nodes[j]).id.metric(target)
}

proof fn lemma_insert_sorted(sorted: Seq<NodeView>, node: NodeView, target: Id)
    requires
        sorted_by_distance(sorted, target),
    ensures
        sorted_by_distance(insert_sorted(sorted, node, target), target),
        insert_sorted(sorted, node, target).to_multiset() =~= sorted.to_multiset().insert(node),
        insert_sorted(sorted, node, target).len() == sorted.len() + 1,
    decreases sorted.len(),
{
    broadcast use vstd::seq_lib::group_to_multiset_ensures;

    let after = insert_sorted(sorted, node, target);
    if sorted.len() > 0 && node.id.metric(target) < sorted.last().id.metric(target) {
        let front = sorted.drop_last();
        lemma_insert_sorted(front, node, target);
        let inner = insert_sorted(front, node, target);
        assert(after == inner.push(sorted.last()));
        assert(front.push(sorted.last()) =~= sorted);
        assert forall|i: int| 0 <= i < inner.len() implies (#[trigger] inner[i]).id.metric(target)
            <= sorted.last().id.metric(target) by {
            assert(inner.to_multiset().count(inner[i]) > 0);
            if inner[i] != node {
                assert(front.to_multiset().count(inner[i]) > 0);
                assert(front.contains(inner[i]));
                let k = choose|k: int| 0 <= k < front.len() && front[k] == inner[i];
                assert(sorted[k] == inner[i]);
            }
        }
    }
}

/// Sorting by distance sorts, and neither adds nor loses a node.
pub proof fn law_by_distance_sorts(nodes: Seq<NodeView>, target: Id)
    ensures
        sorted_by_distance(by_distance(nodes, target), target),
        by_distance(nodes, target).to_multiset() == nodes.to_multiset(),
        by_distance(nodes, target).len() == nodes.len(),
    decreases nodes.len(),
{
    broadcast use vstd::seq_lib::group_to_multiset_ensures;

    if nodes.len() > 0 {
        let front = nodes.drop_last();
        law_by_distance_sorts(front, target);
        lemma_insert_sorted(by_distance(front, target), nodes.last(), target);
        assert(front.push(nodes.last()) =~= nodes);
    }
}

/// A look-up gives nodes of the table, nearest first; it gives [`MAX_BUCKET_SIZE_K`] of them, or
/// all where there are fewer; and no node that it leaves out is nearer than one that it gives.
pub proof fn law_closest_is_nearest(table: TableView, target: Id)
    ensures
        sorted_by_distance(table.closest(target), target),
        table.closest(target).len() == if table.nodes.len() < MAX_BUCKET_SIZE_K {
            table.nodes.len()
        } else {
            MAX_BUCKET_SIZE_K as nat
        },
        forall|n: NodeView|
            table.closest(target).contains(n) ==> #[trigger] table.nodes.contains(n),
        forall|n: NodeView, m: NodeView|
            table.nodes.contains(n) && !table.closest(target).contains(n)
                && table.closest(target).contains(m) ==> (#[trigger] m.id.metric(target)) <= (
            #[trigger] n.id.metric(target)),
{
    broadcast use vstd::seq_lib::group_to_multiset_ensures;

    law_by_distance_sorts(table.nodes, target);
    let all = by_distance(table.nodes, target);
    let near = table.closest(target);
    assert forall|n: NodeView| near.contains(n) implies #[trigger] table.nodes.contains(n) by {
        let i = choose|i: int| 0 <= i < near.len() && near[i] == n;
        assert(all[i] == n);
        assert(all.contains(n));
        assert(all.to_multiset().count(n) > 0);
    }
    assert forall|n: NodeView, m: NodeView|
        table.nodes.contains(n) && !near.contains(n) && near.contains(m) implies (
    #[trigger] m.id.metric(target)) <= (#[trigger] n.id.metric(target)) by {
        assert(table.nodes.to_multiset().count(n) > 0);
        assert(all.contains(n));
        let k = choose|k: int| 0 <= k < all.len() && all[k] == n;
        let i = choose|i: int| 0 <= i < near.len() && near[i] == m;
        if k < near.len() {
            assert(near[k] == n);
        }
        assert(all[i] == m);
    }
}

} // verus!
