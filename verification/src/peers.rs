//! The peers that announced themselves at this node.

use crate::address::SocketAddr;
use crate::id::Id;
use crate::seqs::{distinct_keys, first_index, lemma_first_index, lemma_first_index_is};
use vstd::prelude::*;

verus! {

/// How many peers a response names at most.
pub const MAX_PEERS_IN_RESPONSE: usize = 20;

/// A node that announced itself as a peer.
#[derive(Clone, Copy, Debug)]
pub struct Peer {
    pub id: Id,
    pub address: SocketAddr,
}

/// The peers for an info hash, the last to announce itself last.
#[derive(Debug)]
pub struct Swarm {
    pub info_hash: Id,
    pub peers: Vec<Peer>,
}

/// The peers for several info hashes, the last that was announced for last.
#[derive(Debug)]
pub struct PeersStore {
    max_info_hashes: usize,
    max_peers: usize,
    swarms: Vec<Swarm>,
}

/// What a [`Swarm`] holds.
#[verifier::ext_equal]
pub struct SwarmView {
    pub info_hash: Id,
    pub peers: Seq<Peer>,
}

/// What a [`PeersStore`] holds.
#[verifier::ext_equal]
pub struct PeersView {
    pub max_info_hashes: nat,
    pub max_peers: nat,
    pub swarms: Seq<SwarmView>,
}

impl View for Swarm {
    type V = SwarmView;

    open spec fn view(&self) -> SwarmView {
        SwarmView { info_hash: self.info_hash, peers: self.peers@ }
    }
}

/// What a list of swarms holds.
pub open spec fn swarm_views(swarms: Seq<Swarm>) -> Seq<SwarmView> {
    swarms.map_values(|s: Swarm| s@)
}

impl View for PeersStore {
    type V = PeersView;

    closed spec fn view(&self) -> PeersView {
        PeersView {
            max_info_hashes: self.max_info_hashes as nat,
            max_peers: self.max_peers as nat,
            swarms: swarm_views(self.swarms@),
        }
    }
}

/// Whether a swarm is about an info hash.
pub open spec fn swarm_about(info_hash: Id) -> spec_fn(SwarmView) -> bool {
    |s: SwarmView| s.info_hash == info_hash
}

/// Whether a peer is this node.
pub open spec fn peer_is(id: Id) -> spec_fn(Peer) -> bool {
    |p: Peer| p.id == id
}

/// A sequence without the element at `index`, or as it is where there is none.
pub open spec fn without<A>(s: Seq<A>, index: int) -> Seq<A> {
    if 0 <= index < s.len() {
        s.remove(index)
    } else {
        s
    }
}

/// The last elements of a sequence, at most `n` of them.
pub open spec fn last_of<A>(s: Seq<A>, n: nat) -> Seq<A> {
    if s.len() <= n {
        s
    } else {
        s.skip(s.len() - n)
    }
}

/// Peers with one more, in place of an earlier announcement of the same node; where there are too
/// many, the first leaves.
pub open spec fn join(peers: Seq<Peer>, peer: Peer, max: nat) -> Seq<Peer> {
    last_of(without(peers, first_index(peers, peer_is(peer.id))).push(peer), max)
}

impl PeersView {
    /// The peers for an info hash.
    pub open spec fn peers_for(self, info_hash: Id) -> Seq<Peer> {
        let index = first_index(self.swarms, swarm_about(info_hash));
        if index < self.swarms.len() {
            self.swarms[index].peers
        } else {
            Seq::empty()
        }
    }

    /// The store after a peer announced itself for an info hash: that info hash comes last, and
    /// where there are too many, the first leaves.
    pub open spec fn add_peer(self, info_hash: Id, peer: Peer) -> PeersView {
        let rest = without(self.swarms, first_index(self.swarms, swarm_about(info_hash)));
        let swarm = SwarmView {
            info_hash,
            peers: join(self.peers_for(info_hash), peer, self.max_peers),
        };
        PeersView { swarms: last_of(rest.push(swarm), self.max_info_hashes), ..self }
    }

    /// The addresses of the last peers that announced themselves for an info hash.
    pub open spec fn recent_peers(self, info_hash: Id) -> Seq<SocketAddr> {
        last_of(self.peers_for(info_hash), MAX_PEERS_IN_RESPONSE as nat).map_values(
            |p: Peer| p.address,
        )
    }
}

impl PeersStore {
    /// A store without peers, for at most `max_info_hashes` info hashes with at most `max_peers`
    /// peers each.
    pub fn new(max_info_hashes: usize, max_peers: usize) -> (r: PeersStore)
        ensures
            r@ == (PeersView {
                max_info_hashes: max_info_hashes as nat,
                max_peers: max_peers as nat,
                swarms: Seq::empty(),
            }),
    {
        let r = PeersStore { max_info_hashes, max_peers, swarms: Vec::new() };
        assert(r@.swarms =~= Seq::empty());
        r
    }

    /// The index of the swarm about an info hash, or the number of swarms.
    fn position(&self, info_hash: &Id) -> (r: usize)
        ensures
            r == first_index(self@.swarms, swarm_about(*info_hash)),
            r <= self.swarms.len(),
    {
        let mut i: usize = 0;
        while i < self.swarms.len() && self.swarms[i].info_hash != *info_hash
            invariant
                i <= self.swarms.len(),
                forall|j: int| 0 <= j < i ==> !swarm_about(*info_hash)(#[trigger] self@.swarms[j]),
            decreases self.swarms.len() - i,
        {
            i = i + 1;
        }
        proof {
            lemma_first_index_is(self@.swarms, swarm_about(*info_hash), i as int);
        }
        i
    }

    /// Takes down that a node announced itself as a peer for an info hash.
    pub fn add_peer(&mut self, info_hash: Id, peer: Peer)
        requires
            old(self)@.wf(),
        ensures
            final(self)@ == old(self)@.add_peer(info_hash, peer),
            final(self)@.wf(),
    {
        let ghost before = self@;
        let index: usize = self.position(&info_hash);
        let mut peers: Vec<Peer> = Vec::new();
        let ghost known = before.peers_for(info_hash);
        if index < self.swarms.len() {
            let swarm = self.swarms.remove(index);
            peers = swarm.peers;
        }
        assert(swarm_views(self.swarms@) =~= without(before.swarms, index as int));
        assert(peers@ =~= known);
        let mut i: usize = 0;
        while i < peers.len() && peers[i].id != peer.id
            invariant
                i <= peers.len(),
                forall|j: int| 0 <= j < i ==> !peer_is(peer.id)(#[trigger] peers@[j]),
            decreases peers.len() - i,
        {
            i = i + 1;
        }
        proof {
            lemma_first_index_is(peers@, peer_is(peer.id), i as int);
        }
        if i < peers.len() {
            peers.remove(i);
        }
        assert(peers@ =~= without(known, i as int));
        peers.push(peer);
        let ghost grown = peers@;
        if peers.len() > self.max_peers {
            peers.remove(0);
        }
        assert(peers@ =~= last_of(grown, before.max_peers));
        let ghost rest = swarm_views(self.swarms@);
        let ghost swarm = SwarmView { info_hash, peers: peers@ };
        self.swarms.push(Swarm { info_hash, peers });
        assert(swarm_views(self.swarms@) =~= rest.push(swarm));
        if self.swarms.len() > self.max_info_hashes {
            self.swarms.remove(0);
        }
        assert(self@.swarms =~= last_of(rest.push(swarm), before.max_info_hashes));
        assert(self@ =~= before.add_peer(info_hash, peer));
        proof {
            law_add_peer_keeps_invariant(before, info_hash, peer);
        }
    }

    /// The addresses of the last peers that announced themselves for an info hash.
    pub fn recent_peers(&self, info_hash: &Id) -> (r: Vec<SocketAddr>)
        ensures
            r@ == self@.recent_peers(*info_hash),
    {
        let index: usize = self.position(info_hash);
        let mut r: Vec<SocketAddr> = Vec::new();
        if index < self.swarms.len() {
            let peers = &self.swarms[index].peers;
            let start: usize = if peers.len() > MAX_PEERS_IN_RESPONSE {
                peers.len() - MAX_PEERS_IN_RESPONSE
            } else {
                0
            };
            let ghost picked = last_of(peers@, MAX_PEERS_IN_RESPONSE as nat);
            assert(picked =~= peers@.skip(start as int));
            let mut i: usize = start;
            while i < peers.len()
                invariant
                    start <= i <= peers.len(),
                    r@.len() == i - start,
                    forall|j: int|
                        0 <= j < r@.len() ==> #[trigger] r@[j] == peers@[start + j].address,
                decreases peers.len() - i,
            {
                r.push(peers[i].address);
                i = i + 1;
            }
        }
        assert(r@ =~= self@.recent_peers(*info_hash));
        r
    }
}

impl PeersView {
    /// What every store keeps: there is room for some info hashes and some peers, there are no
    /// more of either than there may be, and no info hash occurs twice.
    pub open spec fn wf(self) -> bool {
        &&& 0 < self.max_info_hashes
        &&& 0 < self.max_peers
        &&& self.swarms.len() <= self.max_info_hashes
        &&& distinct_keys(self.swarms, |s: SwarmView| s.info_hash)
        &&& forall|i: int|
            0 <= i < self.swarms.len() ==> (#[trigger] self.swarms[i]).peers.len() <= self.max_peers
    }
}

/// An announcement keeps what every store keeps.
pub proof fn law_add_peer_keeps_invariant(store: PeersView, info_hash: Id, peer: Peer)
    requires
        store.wf(),
    ensures
        store.add_peer(info_hash, peer).wf(),
{
    let index = first_index(store.swarms, swarm_about(info_hash));
    lemma_first_index(store.swarms, swarm_about(info_hash));
    let rest = without(store.swarms, index);
    assert forall|i: int| 0 <= i < rest.len() implies (#[trigger] rest[i]).info_hash
        != info_hash by {
        if index < store.swarms.len() && i >= index {
            assert(rest[i] == store.swarms[i + 1]);
        } else {
            assert(rest[i] == store.swarms[i]);
        }
    }
}

} // verus!
