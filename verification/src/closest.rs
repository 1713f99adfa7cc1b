//! The nodes that finished queries found near their targets.

use crate::clock::{elapsed, spec_elapsed};
use crate::id::Id;
use crate::node::{node_views, Node, NodeView};
use crate::seqs::{first_index, lemma_first_index_is};
use vstd::prelude::*;

verus! {

/// How long the result of a query is kept: fifteen minutes.
pub const CLOSEST_NODES_MAX_AGE: u64 = 900_000_000_000;

/// The nodes nearest to a target that answered a query with a token.
#[derive(Debug)]
pub struct ClosestNodes {
    pub target: Id,
    pub nodes: Vec<Node>,
    pub found_at: u64,
}

/// What a [`ClosestNodes`] holds.
#[verifier::ext_equal]
pub struct ClosestView {
    pub target: Id,
    pub nodes: Seq<NodeView>,
    pub found_at: u64,
}

impl View for ClosestNodes {
    type V = ClosestView;

    open spec fn view(&self) -> ClosestView {
        ClosestView {
            target: self.target,
            nodes: node_views(self.nodes@),
            found_at: self.found_at,
        }
    }
}

/// What a list of results holds.
pub open spec fn closest_views(list: Seq<ClosestNodes>) -> Seq<ClosestView> {
    list.map_values(|c: ClosestNodes| c@)
}

/// Whether a result is about `target`.
pub open spec fn closest_about(target: Id) -> spec_fn(ClosestView) -> bool {
    |c: ClosestView| c.target == target
}

impl ClosestView {
    /// Whether the result is older than [`CLOSEST_NODES_MAX_AGE`].
    pub open spec fn expired(self, now: u64) -> bool {
        spec_elapsed(self.found_at, now) > CLOSEST_NODES_MAX_AGE
    }
}

/// A list of results with one more, in place of an earlier one about the same target.
pub open spec fn put_closest(list: Seq<ClosestView>, entry: ClosestView) -> Seq<ClosestView> {
    let index = first_index(list, closest_about(entry.target));
    if index < list.len() {
        list.update(index, entry)
    } else {
        list.push(entry)
    }
}

/// A list of results with more, one after the other.
pub open spec fn put_all_closest(list: Seq<ClosestView>, entries: Seq<ClosestView>) -> Seq<
    ClosestView,
>
    decreases entries.len(),
{
    if entries.len() == 0 {
        list
    } else {
        put_closest(put_all_closest(list, entries.drop_last()), entries.last())
    }
}

/// The nodes that a list of results holds for a target.
pub open spec fn cached_nodes(list: Seq<ClosestView>, target: Id) -> Seq<NodeView> {
    let index = first_index(list, closest_about(target));
    if index < list.len() {
        list[index].nodes
    } else {
        Seq::empty()
    }
}

impl ClosestNodes {
    /// A result of just now.
    pub fn new(target: Id, nodes: Vec<Node>, now: u64) -> (r: ClosestNodes)
        ensures
            r@ == (ClosestView { target, nodes: node_views(nodes@), found_at: now }),
    {
        ClosestNodes { target, nodes, found_at: now }
    }

    /// Whether the result is older than [`CLOSEST_NODES_MAX_AGE`].
    pub fn expired(&self, now: u64) -> (r: bool)
        ensures
            r == self@.expired(now),
    {
        elapsed(self.found_at, now) > CLOSEST_NODES_MAX_AGE
    }
}

/// The index of the result about a target, or the length of the list.
pub fn closest_position(list: &Vec<ClosestNodes>, target: &Id) -> (r: usize)
    ensures
        r == first_index(closest_views(list@), closest_about(*target)),
        r <= list@.len(),
{
    let mut i: usize = 0;
    while i < list.len() && list[i].target != *target
        invariant
            i <= list.len(),
            forall|j: int|
                0 <= j < i ==> !closest_about(*target)(#[trigger] closest_views(list@)[j]),
        decreases list.len() - i,
    {
        i = i + 1;
    }
    proof {
        lemma_first_index_is(closest_views(list@), closest_about(*target), i as int);
    }
    i
}

/// Puts a result into a list, in place of an earlier one about the same target.
pub fn insert_closest(list: &mut Vec<ClosestNodes>, entry: ClosestNodes)
    ensures
        closest_views(final(list)@) == put_closest(closest_views(old(list)@), entry@),
{
    let ghost before = closest_views(list@);
    let index: usize = closest_position(list, &entry.target);
    if index < list.len() {
        list.set(index, entry);
        assert(closest_views(list@) =~= before.update(index as int, entry@));
    } else {
        list.push(entry);
        assert(closest_views(list@) =~= before.push(entry@));
    }
}

} // verus!
