//! Nodes of the network, as this node knows them.

use crate::address::SocketAddr;
use crate::clock::{elapsed, spec_elapsed};
use crate::id::Id;
use vstd::prelude::*;

verus! {

/// After how long without a message a node counts as stale: fifteen minutes.
pub const STALE_TIME: u64 = 900_000_000_000;

/// How long after its last message a node may be pinged again: ten seconds.
pub const MIN_PING_BACKOFF_INTERVAL: u64 = 10_000_000_000;

/// A node of the network.
#[derive(Debug)]
pub struct Node {
    pub id: Id,
    pub address: SocketAddr,
    /// The token that the node handed out for storing something at it.
    pub token: Option<Vec<u8>>,
    /// When the node was last heard of.
    pub last_seen: u64,
}

/// What a [`Node`] says.
pub struct NodeView {
    pub id: Id,
    pub address: SocketAddr,
    pub token: Option<Seq<u8>>,
    pub last_seen: u64,
}

impl View for Node {
    type V = NodeView;

    open spec fn view(&self) -> NodeView {
        NodeView {
            id: self.id,
            address: self.address,
            token: option_bytes(self.token),
            last_seen: self.last_seen,
        }
    }
}

/// The bytes of an optional byte string.
pub open spec fn option_bytes(bytes: Option<Vec<u8>>) -> Option<Seq<u8>> {
    match bytes {
        Some(b) => Some(b@),
        None => None,
    }
}

/// A copy of an optional byte string.
pub fn clone_option_bytes(bytes: &Option<Vec<u8>>) -> (r: Option<Vec<u8>>)
    ensures
        option_bytes(r) == option_bytes(*bytes),
{
    match bytes {
        Some(b) => {
            let copy = b.clone();
            assert(copy@ =~= b@);
            Some(copy)
        },
        None => None,
    }
}

/// What the nodes of a list say, one by one.
pub open spec fn node_views(nodes: Seq<Node>) -> Seq<NodeView> {
    nodes.map_values(|n: Node| n@)
}

impl NodeView {
    /// A node that was heard of at `now` and handed out no token.
    pub open spec fn fresh(id: Id, address: SocketAddr, now: u64) -> NodeView {
        NodeView { id, address, token: None, last_seen: now }
    }

    /// The same node with a token.
    pub open spec fn with_token(self, token: Seq<u8>) -> NodeView {
        NodeView { token: Some(token), ..self }
    }

    /// Whether nothing was heard of the node for longer than [`STALE_TIME`].
    pub open spec fn is_stale(self, now: u64) -> bool {
        spec_elapsed(self.last_seen, now) > STALE_TIME
    }

    /// Whether the node's last message is older than [`MIN_PING_BACKOFF_INTERVAL`].
    pub open spec fn should_ping(self, now: u64) -> bool {
        spec_elapsed(self.last_seen, now) > MIN_PING_BACKOFF_INTERVAL
    }
}

impl Node {
    /// A node that was heard of just now.
    pub fn new(id: Id, address: SocketAddr, now: u64) -> (r: Node)
        ensures
            r@ == NodeView::fresh(id, address, now),
    {
        Node { id, address, token: None, last_seen: now }
    }

    /// The same node with a token.
    pub fn with_token(self, token: Vec<u8>) -> (r: Node)
        ensures
            r@ == self@.with_token(token@),
    {
        Node { id: self.id, address: self.address, token: Some(token), last_seen: self.last_seen }
    }

    /// Whether nothing was heard of the node for longer than [`STALE_TIME`].
    pub fn is_stale(&self, now: u64) -> (r: bool)
        ensures
            r == self@.is_stale(now),
    {
        elapsed(self.last_seen, now) > STALE_TIME
    }

    /// Whether the node's last message is older than [`MIN_PING_BACKOFF_INTERVAL`].
    pub fn should_ping(&self, now: u64) -> (r: bool)
        ensures
            r == self@.should_ping(now),
    {
        elapsed(self.last_seen, now) > MIN_PING_BACKOFF_INTERVAL
    }
}

impl Clone for Node {
    fn clone(&self) -> (r: Node)
        ensures
            r@ == self@,
    {
        Node {
            id: self.id,
            address: self.address,
            token: clone_option_bytes(&self.token),
            last_seen: self.last_seen,
        }
    }
}

/// A copy of a list of nodes.
pub fn clone_nodes(nodes: &Vec<Node>) -> (r: Vec<Node>)
    ensures
        node_views(r@) == node_views(nodes@),
{
    let mut copy: Vec<Node> = Vec::new();
    let mut i: usize = 0;
    while i < nodes.len()
        invariant
            i <= nodes.len(),
            node_views(copy@) == node_views(nodes@.take(i as int)),
        decreases nodes.len() - i,
    {
        let node = nodes[i].clone();
        copy.push(node);
        assert(node_views(nodes@.take(i as int + 1)) =~= node_views(nodes@.take(i as int)).push(
            nodes@[i as int]@,
        ));
        assert(node_views(copy@) =~= node_views(nodes@.take(i as int + 1)));
        i = i + 1;
    }
    assert(nodes@.take(nodes.len() as int) =~= nodes@);
    copy
}

} // verus!
