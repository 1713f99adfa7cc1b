//! A node of the network.

pub mod server;

use crate::address::SocketAddr;
use crate::buffer::{copy_to_vec, from_vec, content, option_content, share_option};
use crate::cache::{cache_capacity, cache_entries, cache_new, Key, Stored};
use crate::clock::elapsed;
use crate::closest::{
    closest_position, closest_views, insert_closest, put_all_closest, put_closest, ClosestNodes,
    ClosestView,
};
use crate::id::Id;
use crate::integrity::{
    law_add_node_keeps_wf, law_maintain_keeps_wf, law_query_keeps_wf, law_store_keeps_wf,
    law_receive_keeps_wf, law_tick_queries_keeps_wf, law_tick_store_queries_keeps_wf,
    lemma_store_at_target,
};
use crate::item::{validate_immutable, MutableItem};
use crate::messages::{
    clone_bytes, AnnouncePeerRequestArguments, FindNodeRequestArguments, GetPeersRequestArguments,
    GetValueRequestArguments, Message, MessageType, MessageView, PingRequestArguments,
    PutImmutableRequestArguments, PutMutableRequestArguments, RequestSpecific, RequestView,
    ResponseSpecific,
};
use crate::node::{node_views, Node, NodeView};
use crate::peers::PeersStore;
use crate::query::{
    addresses, query_views, store_query_views, Query, QueryView, StoreQuery, StoreQueryView,
};
use crate::response::{event_views, push_event, Event, EventView, RequestSender};
use crate::routing_table::{has_id, RoutingTable, TableView};
use crate::seqs::{
    distinct_keys, first_index, lemma_filter_members, lemma_filter_push, lemma_filter_take,
    lemma_first_index_is, lemma_part_filtered, lemma_part_filtered_ends, part_filtered,
};
use crate::socket::{datagram_views, Datagram, KrpcSocket, SocketView};
use crate::state::{
    default_bootstrap_nodes, not_stale, peer_values, put_store, query_about, query_expecting,
    query_over, query_running, resolved_addresses, still_valid, store_about, store_at,
    store_expecting, store_running, tell_all, to_ping, CacheView, RpcView, StoreView,
    MAX_INFO_HASHES, MAX_PEERS, MAX_VALUES, PING_TABLE_INTERVAL, REFRESH_TABLE_INTERVAL,
};
use crate::tokens::Tokens;
use bytes::Bytes;
use lru::LruCache;
use vstd::prelude::*;

pub use crate::response::{
    GetImmutableResponse, GetMutableResponse, GetPeerResponse, ResponseDone, ResponseMessage,
    ResponseSender, ResponseValue, StoreQueryMetdata,
};

verus! {

/// A node of the network.
///
/// It does no input or output of its own. What it is told (the time in nanoseconds, random bytes,
/// what arrived from the network, what host names resolve to) it is handed; what it has to send is
/// taken from it with [`Rpc::take_outgoing`], and what it has to tell those who use it with
/// [`Rpc::take_events`].
#[derive(Debug)]
pub struct Rpc {
    socket: KrpcSocket,
    routing_table: RoutingTable,
    queries: Vec<Query>,
    store_queries: Vec<StoreQuery>,
    tokens: Tokens,
    closest_nodes: Vec<ClosestNodes>,
    peers: PeersStore,
    immutable_values: LruCache<Key, Stored>,
    mutable_values: LruCache<Key, Stored>,
    /// When the routing table was last refreshed with a look-up of the own identifier.
    last_table_refresh: u64,
    /// When the nodes in the routing table were last pinged.
    last_table_ping: u64,
    id: Id,
    bootstrap: Vec<String>,
    custom_request_handler: Option<RequestSender>,
    events: Vec<Event>,
}

/// What a list of strings says.
pub open spec fn string_views(strings: Seq<String>) -> Seq<Seq<char>> {
    strings.map_values(|s: String| s@)
}

/// What arrived, if anything.
pub open spec fn incoming_view(incoming: Option<(Message, SocketAddr)>) -> Option<
    (MessageView, SocketAddr),
> {
    match incoming {
        Some((message, from)) => Some((message@, from)),
        None => None,
    }
}

/// What a cache holds.
spec fn cache_view(cache: LruCache<Key, Stored>) -> CacheView {
    CacheView { entries: cache_entries(cache), capacity: cache_capacity(cache) }
}

impl View for Rpc {
    type V = RpcView;

    closed spec fn view(&self) -> RpcView {
        RpcView {
            id: self.id,
            bootstrap: string_views(self.bootstrap@),
            socket: self.socket@,
            routing_table: self.routing_table@,
            queries: query_views(self.queries@),
            store_queries: store_query_views(self.store_queries@),
            closest_nodes: closest_views(self.closest_nodes@),
            tokens: self.tokens@,
            peers: self.peers@,
            immutable_values: cache_view(self.immutable_values),
            mutable_values: cache_view(self.mutable_values),
            last_table_refresh: self.last_table_refresh,
            last_table_ping: self.last_table_ping,
            custom_request_handler: self.custom_request_handler,
            events: event_views(self.events@),
        }
    }
}

/// The hosts through which a node finds the network unless it is given others.
fn default_bootstrap() -> (r: Vec<String>)
    ensures
        string_views(r@) == default_bootstrap_nodes(),
{
    let mut hosts: Vec<String> = Vec::new();
    hosts.push("router.bittorrent.com:6881".to_owned());
    hosts.push("dht.transmissionbt.com:6881".to_owned());
    hosts.push("dht.libtorrent.org:25401".to_owned());
    hosts.push("dht.anacrolix.link:42069".to_owned());
    assert(string_views(hosts@) =~= default_bootstrap_nodes());
    hosts
}

/// The addresses that some look-ups gave, one look-up after the other.
fn flatten(resolved: &Vec<Option<Vec<SocketAddr>>>) -> (r: Vec<SocketAddr>)
    ensures
        r@ == resolved_addresses(resolved@),
{
    let mut found: Vec<SocketAddr> = Vec::new();
    let mut i: usize = 0;
    while i < resolved.len()
        invariant
            i <= resolved.len(),
            found@ == resolved_addresses(resolved@.take(i as int)),
        decreases resolved.len() - i,
    {
        let ghost before = found@;
        proof {
            let next = resolved@.take(i as int + 1);
            assert(next.drop_last() =~= resolved@.take(i as int));
            assert(next.last() == resolved@[i as int]);
        }
        if let Some(addresses) = &resolved[i] {
            let mut j: usize = 0;
            while j < addresses.len()
                invariant
                    j <= addresses.len(),
                    found@ == before + addresses@.take(j as int),
                decreases addresses.len() - j,
            {
                found.push(addresses[j]);
                j = j + 1;
                assert(found@ =~= before + addresses@.take(j as int));
            }
            assert(addresses@.take(addresses@.len() as int) =~= addresses@);
        }
        assert(found@ =~= resolved_addresses(resolved@.take(i as int + 1)));
        i = i + 1;
    }
    assert(resolved@.take(resolved@.len() as int) =~= resolved@);
    found
}

impl Rpc {
    /// Starts a node: with an identifier and two secrets that were picked at random, on a socket
    /// that was bound, or not where binding failed.
    ///
    /// The moment must be one from which [`REFRESH_TABLE_INTERVAL`] can be counted back.
    pub fn new<E>(
        id: Id,
        prev_secret: [u8; 20],
        curr_secret: [u8; 20],
        bound: Result<SocketAddr, E>,
        now: u64,
    ) -> (r: Result<Rpc, E>)
        requires
            now >= REFRESH_TABLE_INTERVAL,
        ensures
            match (bound, r) {
                (Ok(local_addr), Ok(rpc)) => {
                    &&& rpc@ == RpcView::fresh(id, prev_secret@, curr_secret@, local_addr, now)
                    &&& rpc@.wf()
                },
                (Err(e), Err(f)) => e == f,
                _ => false,
            },
    {
        match bound {
            Ok(local_addr) => {
                let rpc = Rpc {
                    socket: KrpcSocket::bound(local_addr),
                    routing_table: RoutingTable::new(id),
                    queries: Vec::new(),
                    store_queries: Vec::new(),
                    tokens: Tokens::new(prev_secret, curr_secret, now),
                    closest_nodes: Vec::new(),
                    peers: PeersStore::new(MAX_INFO_HASHES, MAX_PEERS),
                    immutable_values: cache_new(MAX_VALUES),
                    mutable_values: cache_new(MAX_VALUES),
                    last_table_refresh: now - REFRESH_TABLE_INTERVAL,
                    last_table_ping: now,
                    id,
                    bootstrap: default_bootstrap(),
                    custom_request_handler: None,
                    events: Vec::new(),
                };
                proof {
                    let fresh = RpcView::fresh(id, prev_secret@, curr_secret@, local_addr, now);
                    assert(rpc@ =~= fresh);
                    reveal(Seq::filter);
                    assert(fresh.wf());
                }
                Ok(rpc)
            },
            Err(e) => Err(e),
        }
    }

    // === Options ===

    /// The same node under another identifier.
    pub fn with_id(self, id: Id) -> (r: Rpc)
        ensures
            r@ == (RpcView { id, ..self@ }),
            self@.wf() ==> r@.wf(),
    {
        let mut rpc = self;
        rpc.id = id;
        rpc
    }

    /// The same node, which tells others whether it answers requests.
    pub fn with_read_only(self, read_only: bool) -> (r: Rpc)
        ensures
            r@ == (RpcView { socket: SocketView { read_only, ..self@.socket }, ..self@ }),
            self@.wf() ==> r@.wf(),
    {
        let mut rpc = self;
        rpc.socket.set_read_only(read_only);
        rpc
    }

    /// The same node, which finds the network through other hosts.
    pub fn with_bootstrap(self, bootstrap: Vec<String>) -> (r: Rpc)
        ensures
            r@ == (RpcView { bootstrap: string_views(bootstrap@), ..self@ }),
            self@.wf() ==> r@.wf(),
    {
        let mut rpc = self;
        rpc.bootstrap = bootstrap;
        rpc
    }

    /// The same node on another socket, which was bound to the wanted port, or not where binding
    /// failed. Nothing that was set of the socket before stays.
    pub fn with_port<E>(self, bound: Result<SocketAddr, E>) -> (r: Result<Rpc, E>)
        ensures
            match (bound, r) {
                (Ok(local_addr), Ok(rpc)) => {
                    &&& rpc@ == RpcView { socket: SocketView::bound(local_addr), ..self@ }
                    &&& self@.wf() ==> rpc@.wf()
                },
                (Err(e), Err(f)) => e == f,
                _ => false,
            },
    {
        match bound {
            Ok(local_addr) => {
                let mut rpc = self;
                rpc.socket = KrpcSocket::bound(local_addr);
                Ok(rpc)
            },
            Err(e) => Err(e),
        }
    }

    /// The same node, whose requests time out after this many milliseconds.
    pub fn with_request_timeout(self, timeout: u64) -> (r: Rpc)
        ensures
            r@ == (RpcView {
                socket: SocketView { request_timeout: timeout, ..self@.socket },
                ..self@
            }),
            self@.wf() ==> r@.wf(),
    {
        let mut rpc = self;
        rpc.socket.set_request_timeout(timeout);
        rpc
    }

    /// The same node, which passes requests on instead of answering them, and tells others that it
    /// answers requests.
    ///
    /// A request can still be answered with [`Rpc::handle_request`], or with [`Rpc::respond`].
    pub fn with_custom_request_handler(self, sender: RequestSender) -> (r: Rpc)
        ensures
            r@ == (RpcView {
                socket: SocketView { read_only: false, ..self@.socket },
                custom_request_handler: Some(sender),
                ..self@
            }),
            self@.wf() ==> r@.wf(),
    {
        let mut rpc = self;
        rpc.socket.set_read_only(false);
        rpc.custom_request_handler = Some(sender);
        rpc
    }

    // === Getters ===

    /// The address that the node listens at.
    pub fn local_addr(&self) -> (r: SocketAddr)
        ensures
            r == self@.socket.local_addr,
    {
        self.socket.local_addr()
    }

    /// A copy of the routing table.
    pub fn routing_table(&self) -> (r: RoutingTable)
        ensures
            r@ == self@.routing_table,
    {
        self.routing_table.clone()
    }

    /// How many nodes are in the routing table.
    pub fn routing_table_size(&self) -> (r: usize)
        ensures
            r == self@.routing_table.nodes.len(),
    {
        self.routing_table.size()
    }

    // === Steps ===

    /// Whether a step at this moment looks up the own identifier, and so needs the addresses of
    /// the hosts to find the network through.
    pub fn refresh_due(&self, now: u64) -> (r: bool)
        ensures
            r == self@.refresh_due(now),
    {
        self.routing_table.is_empty() && elapsed(self.last_table_refresh, now)
            > REFRESH_TABLE_INTERVAL
    }

    /// Whether a query for a target would start at the hosts to find the network through, and so
    /// needs their addresses.
    pub fn needs_bootstrap(&self, target: &Id) -> (r: bool)
        ensures
            r == self@.needs_bootstrap(*target),
    {
        let known: usize = self.routing_table.closest(target).len();
        self.query_position(target) == self.queries.len() && (known == 0 || known
            < self.bootstrap.len())
    }

    /// The hosts through which the node finds the network.
    pub fn bootstrap(&self) -> (r: &Vec<String>)
        ensures
            string_views(r@) == self@.bootstrap,
    {
        &self.bootstrap
    }

    /// Takes what is to be sent, the first first.
    pub fn take_outgoing(&mut self) -> (r: Vec<Datagram>)
        ensures
            datagram_views(r@) == old(self)@.socket.outgoing,
            final(self)@ == (RpcView {
                socket: SocketView { outgoing: Seq::empty(), ..old(self)@.socket },
                ..old(self)@
            }),
            old(self)@.wf() ==> final(self)@.wf(),
    {
        self.socket.take_outgoing()
    }

    /// Takes what the node has to tell those who use it, the first first.
    pub fn take_events(&mut self) -> (r: Vec<Event>)
        ensures
            event_views(r@) == old(self)@.events,
            final(self)@ == (RpcView { events: Seq::empty(), ..old(self)@ }),
            old(self)@.wf() ==> final(self)@.wf(),
    {
        let ghost before = self@;
        let mut events: Vec<Event> = Vec::new();
        std::mem::swap(&mut events, &mut self.events);
        assert(self@ =~= (RpcView { events: Seq::empty(), ..before }));
        events
    }

    /// Makes a step of each query.
    fn tick_queries(&mut self, now: u64)
        ensures
            final(self)@ == old(self)@.tick_queries(old(self)@.queries.len(), now),
    {
        let ghost before = self@;
        let mut i: usize = 0;
        while i < self.queries.len()
            invariant
                i <= self.queries.len(),
                self.queries.len() == before.queries.len(),
                self@ == before.tick_queries(i as nat, now),
            decreases self.queries.len() - i,
        {
            let ghost mid = self@;
            assert(self.queries@[i as int]@ == mid.queries[i as int]);
            let query = &mut self.queries[i];
            query.tick(&mut self.socket, now, &mut self.events);
            i = i + 1;
            proof {
                let after = self.queries@[i - 1]@;
                assert(self@.queries =~= mid.queries.update(i - 1, after));
                assert(self@ =~= before.tick_queries(i as nat, now));
            }
        }
    }

    /// Makes a step of each store query.
    fn tick_store_queries(&mut self)
        ensures
            final(self)@ == old(self)@.tick_store_queries(old(self)@.store_queries.len()),
    {
        let ghost before = self@;
        let mut i: usize = 0;
        while i < self.store_queries.len()
            invariant
                i <= self.store_queries.len(),
                self.store_queries.len() == before.store_queries.len(),
                self@ == before.tick_store_queries(i as nat),
            decreases self.store_queries.len() - i,
        {
            let ghost mid = self@;
            assert(self.store_queries@[i as int]@ == mid.store_queries[i as int]);
            let query = &mut self.store_queries[i];
            query.tick(&self.socket, &mut self.events);
            i = i + 1;
            proof {
                let after = self.store_queries@[i - 1]@;
                assert(self@.store_queries =~= mid.store_queries.update(i - 1, after));
                assert(self@ =~= before.tick_store_queries(i as nat));
            }
        }
    }

    /// Handles a message that the socket let through, as [`RpcView::handle_message`] says.
    fn handle_message(&mut self, message: Message, from: SocketAddr, now: u64)
        requires
            old(self)@.wf(),
            message@.hashable(),
        ensures
            final(self)@ == old(self)@.handle_message(message@, from, now),
    {
        let ghost before = self@;
        self.add_node(&message, from, now);
        proof {
            law_add_node_keeps_wf(before, message@, from, now);
        }
        let is_response = matches!(message.message_type, MessageType::Response(_));
        if is_response {
            self.handle_response(from, &message, now);
            return;
        }
        match message.message_type {
            MessageType::Request(request_specific) => {
                if let Some(to) = self.custom_request_handler {
                    push_event(
                        &mut self.events,
                        Event::Request {
                            to,
                            from,
                            transaction_id: message.transaction_id,
                            request: request_specific,
                        },
                    );
                } else {
                    self.handle_request(from, message.transaction_id, &request_specific);
                }
            },
            MessageType::Response(_) => {},
            MessageType::Error(error) => {
                push_event(&mut self.events, Event::ErrorResponse { error });
            },
        }
    }

    /// Does what the node does of itself, as [`RpcView::maintain`] says: it is handed random bytes,
    /// the outcome of looking up each of [`Rpc::bootstrap`], and the time.
    ///
    /// The outcome of the look-ups plays no part unless [`Rpc::refresh_due`] says so.
    pub fn maintain(
        &mut self,
        secret: [u8; 20],
        resolved: &Vec<Option<Vec<SocketAddr>>>,
        now: u64,
    )
        requires
            old(self)@.wf(),
        ensures
            final(self)@ == old(self)@.maintain(secret@, resolved_addresses(resolved@), now),
            final(self)@.wf(),
    {
        let ghost before = self@;
        proof {
            law_maintain_keeps_wf(before, secret@, resolved_addresses(resolved@), now);
        }
        if self.tokens.should_update(now) {
            self.tokens.rotate(secret, now);
        }
        assert(self@ =~= before.rotate_tokens(secret@, now));
        proof {
            law_tick_queries_keeps_wf(self@, self@.queries.len(), now);
            let walked = self@.tick_queries(self@.queries.len(), now);
            law_tick_store_queries_keeps_wf(walked, walked.store_queries.len());
        }
        self.tick_queries(now);
        self.tick_store_queries();
        self.maintain_queries(now);
        self.maintain_routing_table(resolved, now);
    }

    /// Takes in what arrived, as [`RpcView::receive`] says: it is handed the message and the
    /// address that it came from, where one arrived, and the time.
    pub fn receive(&mut self, incoming: Option<(Message, SocketAddr)>, now: u64)
        requires
            old(self)@.wf(),
            incoming_view(incoming) matches Some((message, _)) ==> message.hashable(),
        ensures
            final(self)@ == old(self)@.receive(incoming_view(incoming), now),
            final(self)@.wf(),
    {
        proof {
            law_receive_keeps_wf(self@, incoming_view(incoming), now);
        }
        match incoming {
            Some((message, from)) => {
                if self.socket.receive(&message, from, now) {
                    self.handle_message(message, from, now);
                }
            },
            None => {
                self.socket.forget_timed_out(now);
            },
        }
    }

    /// Makes a step of the node, as [`RpcView::tick`] says: [`Rpc::maintain`], and then
    /// [`Rpc::receive`] at the same moment.
    pub fn tick(
        &mut self,
        secret: [u8; 20],
        resolved: &Vec<Option<Vec<SocketAddr>>>,
        incoming: Option<(Message, SocketAddr)>,
        now: u64,
    )
        requires
            old(self)@.wf(),
            incoming_view(incoming) matches Some((message, _)) ==> message.hashable(),
        ensures
            final(self)@ == old(self)@.tick(
                secret@,
                resolved_addresses(resolved@),
                incoming_view(incoming),
                now,
            ),
            final(self)@.wf(),
    {
        self.maintain(secret, resolved, now);
        self.receive(incoming, now);
    }

    // === Queries ===

    /// The index of the query for a target, or the number of queries.
    fn query_position(&self, target: &Id) -> (r: usize)
        ensures
            r == first_index(self@.queries, query_about(*target)),
            r <= self.queries.len(),
    {
        let mut i: usize = 0;
        while i < self.queries.len() && *self.queries[i].target() != *target
            invariant
                i <= self.queries.len(),
                forall|j: int| 0 <= j < i ==> !query_about(*target)(#[trigger] self@.queries[j]),
            decreases self.queries.len() - i,
        {
            i = i + 1;
        }
        proof {
            lemma_first_index_is(self@.queries, query_about(*target), i as int);
        }
        i
    }

    /// Asks for a query: sends a request to nodes nearer and nearer to a target until no more are
    /// found.
    ///
    /// While a query for the target is under way, no new one starts: the receiver joins the one
    /// under way, and is told what it found so far.
    fn query(
        &mut self,
        target: Id,
        request: RequestSpecific,
        sender: Option<ResponseSender>,
        resolved: &Vec<Option<Vec<SocketAddr>>>,
        now: u64,
    )
        ensures
            final(self)@ == old(self)@.query(
                target,
                request@,
                sender,
                resolved_addresses(resolved@),
                now,
            ),
            old(self)@.wf() ==> final(self)@.wf(),
    {
        let ghost before = self@;
        proof {
            if before.wf() {
                law_query_keeps_wf(
                    before,
                    target,
                    request@,
                    sender,
                    resolved_addresses(resolved@),
                    now,
                );
            }
        }
        let index: usize = self.query_position(&target);
        if index < self.queries.len() {
            let query = &mut self.queries[index];
            query.add_sender(sender, &mut self.events);
            assert(self@ =~= before.query(
                target,
                request@,
                sender,
                resolved_addresses(resolved@),
                now,
            ));
            return;
        }
        let ghost told = event_views(self.events@);
        let mut query = Query::new(target, request);
        query.add_sender(sender, &mut self.events);
        assert(event_views(self.events@) =~= told);
        let closest = self.routing_table.closest(&target);
        if closest.len() == 0 || closest.len() < self.bootstrap.len() {
            let found = flatten(resolved);
            query.visit_all(&mut self.socket, &found, now);
        } else {
            query.add_candidates(&closest, now);
            let cached: usize = closest_position(&self.closest_nodes, &target);
            if cached < self.closest_nodes.len() {
                query.add_candidates(&self.closest_nodes[cached].nodes, now);
            }
            query.start(&mut self.socket, now);
        }
        self.queries.push(query);
        assert(self@ =~= before.query(
            target,
            request@,
            sender,
            resolved_addresses(resolved@),
            now,
        ));
    }

    /// The index of the first store query that waits for the answer to a transaction, or the
    /// number of store queries; it then waits for it no longer.
    fn answer_store_query(&mut self, transaction_id: u16) -> (r: usize)
        ensures
            r == first_index(old(self)@.store_queries, store_expecting(transaction_id)),
            r <= old(self)@.store_queries.len(),
            final(self).store_queries.len() == old(self)@.store_queries.len(),
            final(self)@ == if r < old(self)@.store_queries.len() {
                RpcView {
                    store_queries: old(self)@.store_queries.update(
                        r as int,
                        old(self)@.store_queries[r as int].answered(transaction_id),
                    ),
                    ..old(self)@
                }
            } else {
                old(self)@
            },
    {
        let ghost before = self@;
        let ghost pred = store_expecting(transaction_id);
        let mut i: usize = 0;
        while i < self.store_queries.len()
            invariant
                i <= self.store_queries.len(),
                before == old(self)@,
                self@ == before,
                pred == store_expecting(transaction_id),
                forall|j: int| 0 <= j < i ==> !pred(#[trigger] before.store_queries[j]),
            decreases self.store_queries.len() - i,
        {
            let query = &mut self.store_queries[i];
            let expected = query.remove_inflight_request(transaction_id);
            if expected {
                proof {
                    lemma_first_index_is(before.store_queries, pred, i as int);
                    assert(self@ =~= (RpcView {
                        store_queries: before.store_queries.update(
                            i as int,
                            before.store_queries[i as int].answered(transaction_id),
                        ),
                        ..before
                    }));
                }
                return i;
            }
            assert(self@ =~= before);
            i = i + 1;
        }
        proof {
            lemma_first_index_is(before.store_queries, pred, i as int);
        }
        i
    }

    /// The index of the first query that waits for the answer to a transaction, or the number of
    /// queries; it then waits for it no longer.
    fn answer_query(&mut self, transaction_id: u16) -> (r: usize)
        ensures
            r == first_index(old(self)@.queries, query_expecting(transaction_id)),
            r <= old(self)@.queries.len(),
            final(self).queries.len() == old(self)@.queries.len(),
            final(self)@ == if r < old(self)@.queries.len() {
                RpcView {
                    queries: old(self)@.queries.update(
                        r as int,
                        old(self)@.queries[r as int].answered(transaction_id),
                    ),
                    ..old(self)@
                }
            } else {
                old(self)@
            },
    {
        let ghost before = self@;
        let ghost pred = query_expecting(transaction_id);
        let mut i: usize = 0;
        while i < self.queries.len()
            invariant
                i <= self.queries.len(),
                before == old(self)@,
                self@ == before,
                pred == query_expecting(transaction_id),
                forall|j: int| 0 <= j < i ==> !pred(#[trigger] before.queries[j]),
            decreases self.queries.len() - i,
        {
            let query = &mut self.queries[i];
            let expected = query.remove_inflight_request(transaction_id);
            if expected {
                proof {
                    lemma_first_index_is(before.queries, pred, i as int);
                    assert(self@ =~= (RpcView {
                        queries: before.queries.update(
                            i as int,
                            before.queries[i as int].answered(transaction_id),
                        ),
                        ..before
                    }));
                }
                return i;
            }
            assert(self@ =~= before);
            i = i + 1;
        }
        proof {
            lemma_first_index_is(before.queries, pred, i as int);
        }
        i
    }

    /// Takes in a response, as [`RpcView::handle_response`] says.
    fn handle_response(&mut self, from: SocketAddr, message: &Message, now: u64)
        requires
            message@.hashable(),
        ensures
            final(self)@ == old(self)@.handle_response(from, message@, now),
    {
        let ghost before = self@;
        if message.read_only {
            return;
        }
        let store: usize = self.answer_store_query(message.transaction_id);
        if store < self.store_queries.len() {
            let ghost answered = self@.store_queries;
            assert(self.store_queries@[store as int]@ == answered[store as int]);
            if let MessageType::Response(
                ResponseSpecific::Ping(arguments),
            ) = &message.message_type {
                let query = &mut self.store_queries[store];
                query.success(arguments.responder_id);
            }
            proof {
                let after = self.store_queries@[store as int]@;
                assert(self@.store_queries =~= answered.update(store as int, after));
                assert(answered.update(store as int, after) =~= before.store_queries.update(
                    store as int,
                    after,
                ));
                assert(self@ =~= before.handle_response(from, message@, now));
            }
            return;
        }
        let index: usize = self.answer_query(message.transaction_id);
        if index < self.queries.len() {
            let ghost answered = self@.queries;
            assert(self.queries@[index as int]@ == answered[index as int]);
            let query = &mut self.queries[index];
            learn(query, from, message, now);
            take_in(query, &mut self.events, from, message, now);
            proof {
                let after = self.queries@[index as int]@;
                assert(self@.queries =~= answered.update(index as int, after));
                assert(answered.update(index as int, after) =~= before.queries.update(
                    index as int,
                    after,
                ));
                assert(self@ =~= before.handle_response(from, message@, now));
            }
        }
    }

    /// Notes the author of a message in the routing table, unless it is read-only or not named.
    fn add_node(&mut self, message: &Message, from: SocketAddr, now: u64)
        ensures
            final(self)@ == old(self)@.add_node(message@, from, now),
    {
        let ghost before = self@;
        if message.read_only {
            return;
        }
        if let Some(id) = message.get_author_id() {
            self.routing_table.add(Node::new(id, from, now), now);
        }
        assert(self@ =~= before.add_node(message@, from, now));
    }
}

/// What a store query stores.
enum StoreItem {
    Peer { port: Option<u16> },
    Immutable { value: Bytes },
    Mutable { item: MutableItem },
}

impl StoreItem {
    spec fn view(self) -> StoreView {
        match self {
            StoreItem::Peer { port } => StoreView::Peer { port },
            StoreItem::Immutable { value } => StoreView::Immutable { value: content(value) },
            StoreItem::Mutable { item } => StoreView::Mutable { item: item@ },
        }
    }

    /// The request that stores it under `target` at a node that handed out `token`.
    fn request(&self, requester_id: Id, target: Id, token: Vec<u8>) -> (r: RequestSpecific)
        ensures
            r@ == self.view().request(requester_id, target, token@),
    {
        match self {
            StoreItem::Peer { port } => {
                let (port, implied_port): (u16, Option<bool>) = match port {
                    Some(port) => (*port, None),
                    None => (0, Some(true)),
                };
                RequestSpecific::AnnouncePeer(
                    AnnouncePeerRequestArguments {
                        requester_id,
                        info_hash: target,
                        port,
                        implied_port,
                        token,
                    },
                )
            },
            StoreItem::Immutable { value } => RequestSpecific::PutImmutable(
                PutImmutableRequestArguments { requester_id, target, token, v: copy_to_vec(value) },
            ),
            StoreItem::Mutable { item } => RequestSpecific::PutMutable(
                PutMutableRequestArguments {
                    requester_id,
                    target,
                    token,
                    v: copy_to_vec(item.value()),
                    k: clone_bytes(item.key()),
                    seq: *item.seq(),
                    sig: clone_bytes(item.signature()),
                    salt: match item.salt() {
                        Some(salt) => Some(copy_to_vec(salt)),
                        None => None,
                    },
                    cas: *item.cas(),
                },
            ),
        }
    }
}

impl Rpc {
    /// The index of the store query under a target, or the number of store queries.
    fn store_position(&self, target: &Id) -> (r: usize)
        ensures
            r == first_index(self@.store_queries, store_about(*target)),
            r <= self.store_queries.len(),
    {
        let mut i: usize = 0;
        while i < self.store_queries.len() && *self.store_queries[i].target() != *target
            invariant
                i <= self.store_queries.len(),
                forall|j: int|
                    0 <= j < i ==> !store_about(*target)(#[trigger] self@.store_queries[j]),
            decreases self.store_queries.len() - i,
        {
            i = i + 1;
        }
        proof {
            lemma_first_index_is(self@.store_queries, store_about(*target), i as int);
        }
        i
    }

    /// Stores something at the nodes of a list that handed out a token.
    fn store(
        &mut self,
        target: Id,
        nodes: Vec<Node>,
        what: StoreItem,
        sender: ResponseSender,
        now: u64,
    )
        ensures
            final(self)@ == old(self)@.store(target, node_views(nodes@), what.view(), sender, now),
            old(self)@.wf() ==> final(self)@.wf(),
    {
        let ghost before = self@;
        let ghost all = node_views(nodes@);
        proof {
            if before.wf() {
                law_store_keeps_wf(before, target, all, what.view(), sender, now);
            }
        }
        let ghost fresh = StoreQueryView::fresh(target, sender);
        let mut query = StoreQuery::new(target, sender);
        let mut i: usize = 0;
        while i < nodes.len()
            invariant
                i <= nodes.len(),
                all == node_views(nodes@),
                fresh == StoreQueryView::fresh(target, sender),
                self@ == (RpcView { socket: self@.socket, ..before }),
                (query@, self@.socket) == store_at(
                    fresh,
                    before.socket,
                    all.take(i as int),
                    what.view(),
                    before.id,
                    now,
                ),
            decreases nodes.len() - i,
        {
            proof {
                let next = all.take(i as int + 1);
                assert(next.drop_last() =~= all.take(i as int));
                assert(next.last() == nodes@[i as int]@);
            }
            if let Some(token) = &nodes[i].token {
                let request = what.request(self.id, target, clone_bytes(token));
                query.request(nodes[i].clone(), request, &mut self.socket, now);
            }
            i = i + 1;
        }
        assert(all.take(all.len() as int) =~= all);
        proof {
            lemma_store_at_target(fresh, before.socket, all, what.view(), before.id, now);
        }
        let index: usize = self.store_position(&target);
        if index < self.store_queries.len() {
            self.store_queries.set(index, query);
            assert(self@.store_queries =~= put_store(before.store_queries, query@));
        } else {
            self.store_queries.push(query);
            assert(self@.store_queries =~= put_store(before.store_queries, query@));
        }
        assert(self@ =~= before.store(target, all, what.view(), sender, now));
    }

    /// Drops the results of earlier queries that are too old.
    fn drop_expired(&mut self, now: u64)
        ensures
            final(self)@ == (RpcView {
                closest_nodes: old(self)@.closest_nodes.filter(still_valid(now)),
                ..old(self)@
            }),
    {
        let ghost keep = still_valid(now);
        let ghost before = self@;
        let ghost all = before.closest_nodes;
        let ghost mut seen: int = 0;
        let mut i: usize = 0;
        proof {
            lemma_part_filtered_ends(all, keep);
            assert(self@ =~= (RpcView { closest_nodes: part_filtered(all, keep, 0), ..before }));
        }
        while i < self.closest_nodes.len()
            invariant
                0 <= seen <= all.len(),
                keep == still_valid(now),
                i == all.take(seen).filter(keep).len(),
                self@ == (RpcView { closest_nodes: part_filtered(all, keep, seen), ..before }),
            decreases all.len() - seen,
        {
            let ghost mid = self@.closest_nodes;
            assert(mid.len() == self.closest_nodes@.len());
            proof {
                lemma_part_filtered(all, keep, seen);
                assert(mid[i as int] == self.closest_nodes@[i as int]@);
            }
            if self.closest_nodes[i].expired(now) {
                self.closest_nodes.remove(i);
                assert(self@.closest_nodes =~= mid.remove(i as int));
            } else {
                i = i + 1;
            }
            proof {
                seen = seen + 1;
                assert(self@ =~= (RpcView {
                    closest_nodes: part_filtered(all, keep, seen),
                    ..before
                }));
            }
        }
        proof {
            assert(self@.closest_nodes.len() == self.closest_nodes@.len());
            assert(seen == all.len());
        }
    }

    /// Takes out the queries that are over, and keeps what they found.
    fn finish_queries(&mut self, now: u64)
        ensures
            final(self)@ == (RpcView {
                closest_nodes: put_all_closest(old(self)@.closest_nodes, old(self)@.results(now)),
                queries: old(self)@.queries.filter(query_running()),
                events: old(self)@.events + old(self)@.bootstrap_events(),
                ..old(self)@
            }),
    {
        let ghost before = self@;
        let ghost all = before.queries;
        let ghost keep = query_running();
        let ghost mut seen: int = 0;
        let table_size: usize = self.routing_table.size();
        let mut i: usize = 0;
        proof {
            reveal(Seq::filter);
            lemma_part_filtered_ends(all, keep);
            assert(self@ =~= finished(before, 0, now));
        }
        while i < self.queries.len()
            invariant
                0 <= seen <= all.len(),
                all == before.queries,
                keep == query_running(),
                i == all.take(seen).filter(keep).len(),
                table_size == before.routing_table.nodes.len(),
                self@ == finished(before, seen, now),
            decreases all.len() - seen,
        {
            let ghost mid = self@;
            assert(mid.queries.len() == self.queries@.len());
            proof {
                lemma_part_filtered(all, keep, seen);
                assert(mid.queries[i as int] == self.queries@[i as int]@);
                lemma_finished(before, seen, now);
            }
            if self.queries[i].is_done() {
                let query = self.queries.remove(i);
                assert(self@.queries =~= mid.queries.remove(i as int));
                let target = *query.target();
                insert_closest(
                    &mut self.closest_nodes,
                    ClosestNodes::new(target, query.closest(), now),
                );
                if target == self.id {
                    if table_size == 0 {
                        push_event(&mut self.events, Event::BootstrapFailed);
                    } else {
                        push_event(&mut self.events, Event::Bootstrapped { table_size });
                    }
                }
            } else {
                i = i + 1;
            }
            proof {
                seen = seen + 1;
                assert(self@ =~= finished(before, seen, now));
            }
        }
        proof {
            assert(self@.queries.len() == self.queries@.len());
            assert(seen == all.len());
            assert(all.take(seen) =~= all);
            lemma_part_filtered_ends(all, keep);
        }
    }

    /// Takes out the store queries that are over.
    fn finish_store_queries(&mut self)
        ensures
            final(self)@ == (RpcView {
                store_queries: old(self)@.store_queries.filter(store_running()),
                ..old(self)@
            }),
    {
        let ghost keep = store_running();
        let ghost before = self@;
        let ghost all = before.store_queries;
        let ghost mut seen: int = 0;
        let mut i: usize = 0;
        proof {
            lemma_part_filtered_ends(all, keep);
            assert(self@ =~= (RpcView { store_queries: part_filtered(all, keep, 0), ..before }));
        }
        while i < self.store_queries.len()
            invariant
                0 <= seen <= all.len(),
                keep == store_running(),
                i == all.take(seen).filter(keep).len(),
                self@ == (RpcView { store_queries: part_filtered(all, keep, seen), ..before }),
            decreases all.len() - seen,
        {
            let ghost mid = self@.store_queries;
            assert(mid.len() == self.store_queries@.len());
            proof {
                lemma_part_filtered(all, keep, seen);
                assert(mid[i as int] == self.store_queries@[i as int]@);
            }
            if self.store_queries[i].is_done() {
                self.store_queries.remove(i);
                assert(self@.store_queries =~= mid.remove(i as int));
            } else {
                i = i + 1;
            }
            proof {
                seen = seen + 1;
                assert(self@ =~= (RpcView {
                    store_queries: part_filtered(all, keep, seen),
                    ..before
                }));
            }
        }
        proof {
            assert(self@.store_queries.len() == self.store_queries@.len());
            assert(seen == all.len());
        }
    }

    /// Takes out what is over.
    ///
    /// This comes after a step of each query, which tells the receivers that it is over.
    fn maintain_queries(&mut self, now: u64)
        ensures
            final(self)@ == old(self)@.maintain_queries(now),
    {
        self.drop_expired(now);
        self.finish_queries(now);
        self.finish_store_queries();
    }

    /// Looks up the own identifier, to fill the routing table.
    fn populate(&mut self, resolved: &Vec<Option<Vec<SocketAddr>>>, now: u64)
        ensures
            final(self)@ == old(self)@.populate(resolved_addresses(resolved@), now),
    {
        let id = self.id;
        self.query(
            id,
            RequestSpecific::FindNode(FindNodeRequestArguments { requester_id: id, target: id }),
            None,
            resolved,
            now,
        );
    }

    /// Pings an address.
    fn ping(&mut self, address: SocketAddr, now: u64)
        ensures
            final(self)@ == (RpcView {
                socket: old(self)@.socket.request(
                    address,
                    RequestView::Ping { requester_id: old(self)@.id },
                    now,
                ),
                ..old(self)@
            }),
    {
        let request = RequestSpecific::Ping(PingRequestArguments { requester_id: self.id });
        let _ = self.socket.request(address, request, now);
    }

    /// Looks after the routing table: refreshes it where it is empty and that is due; and where
    /// that is due, takes out stale nodes and pings the others.
    fn maintain_routing_table(&mut self, resolved: &Vec<Option<Vec<SocketAddr>>>, now: u64)
        requires
            old(self)@.routing_table.wf(),
        ensures
            final(self)@ == old(self)@.maintain_routing_table(
                resolved_addresses(resolved@),
                now,
            ),
    {
        let ghost start = self@;
        if self.routing_table.is_empty() && elapsed(self.last_table_refresh, now)
            > REFRESH_TABLE_INTERVAL {
            self.last_table_refresh = now;
            self.populate(resolved, now);
        }
        let ghost before = self@;
        assert(before == start.refresh_table(resolved_addresses(resolved@), now));
        if elapsed(self.last_table_ping, now) > PING_TABLE_INTERVAL {
            self.last_table_ping = now;
            let nodes = self.routing_table.to_vec();
            let ghost all = before.routing_table.nodes;
            let mut i: usize = 0;
            proof {
                reveal(Seq::filter);
                assert(self@ =~= pinged(before, 0, now));
            }
            while i < nodes.len()
                invariant
                    i <= nodes.len(),
                    all == before.routing_table.nodes,
                    all == node_views(nodes@),
                    before.routing_table.wf(),
                    self@ == pinged(before, i as int, now),
                decreases nodes.len() - i,
            {
                let node = &nodes[i];
                proof {
                    let at = all[i as int];
                    assert(at == node@);
                    lemma_filter_take(all, not_stale(now), i as int);
                    lemma_filter_take(all, to_ping(now), i as int);
                    lemma_next_to_check(all, i as int, now);
                    let asked = addresses(all.take(i as int).filter(to_ping(now)));
                    if to_ping(now)(at) {
                        let more = addresses(all.take(i as int + 1).filter(to_ping(now)));
                        assert(more.drop_last() =~= asked);
                        assert(more.last() == at.address);
                    }
                }
                if node.is_stale(now) {
                    self.routing_table.remove(&node.id);
                } else if node.should_ping(now) {
                    self.ping(node.address, now);
                }
                i = i + 1;
                proof {
                    let next = pinged(before, i as int, now);
                    assert(self@.routing_table.nodes =~= next.routing_table.nodes);
                    assert(self@ =~= next);
                }
            }
            proof {
                assert(all.take(all.len() as int) =~= all);
                assert(all.skip(all.len() as int) =~= Seq::empty());
                assert(self@.routing_table.nodes =~= all.filter(not_stale(now)));
                assert(self@ =~= before.ping_table(now));
            }
        }
    }
}

impl Rpc {
    /// Asks for the peers that announced themselves for an info hash, with a query that starts or
    /// is under way.
    ///
    /// The outcome of looking up each of [`Rpc::bootstrap`] plays no part unless
    /// [`Rpc::needs_bootstrap`] says so.
    pub fn get_peers(
        &mut self,
        info_hash: Id,
        sender: ResponseSender,
        resolved: &Vec<Option<Vec<SocketAddr>>>,
        now: u64,
    )
        ensures
            final(self)@ == old(self)@.get_peers(
                info_hash,
                sender,
                resolved_addresses(resolved@),
                now,
            ),
            old(self)@.wf() ==> final(self)@.wf(),
    {
        let requester_id = self.id;
        self.query(
            info_hash,
            RequestSpecific::GetPeers(GetPeersRequestArguments { requester_id, info_hash }),
            Some(sender),
            resolved,
            now,
        );
    }

    /// Announces the node as a peer for an info hash at the nodes of a list: on a port, or on the
    /// one that it sends from.
    pub fn announce_peer(
        &mut self,
        info_hash: Id,
        nodes: Vec<Node>,
        port: Option<u16>,
        sender: ResponseSender,
        now: u64,
    )
        ensures
            final(self)@ == old(self)@.store(
                info_hash,
                node_views(nodes@),
                StoreView::Peer { port },
                sender,
                now,
            ),
            old(self)@.wf() ==> final(self)@.wf(),
    {
        self.store(info_hash, nodes, StoreItem::Peer { port }, sender, now);
    }

    /// Asks for the immutable value under a target, with a query that starts or is under way.
    ///
    /// The outcome of looking up each of [`Rpc::bootstrap`] plays no part unless
    /// [`Rpc::needs_bootstrap`] says so.
    pub fn get_immutable(
        &mut self,
        target: Id,
        sender: ResponseSender,
        resolved: &Vec<Option<Vec<SocketAddr>>>,
        now: u64,
    )
        ensures
            final(self)@ == old(self)@.get_value(
                target,
                None,
                sender,
                resolved_addresses(resolved@),
                now,
            ),
            old(self)@.wf() ==> final(self)@.wf(),
    {
        let requester_id = self.id;
        self.query(
            target,
            RequestSpecific::GetValue(
                GetValueRequestArguments { requester_id, target, seq: None, salt: None },
            ),
            Some(sender),
            resolved,
            now,
        );
    }

    /// Stores an immutable value at the nodes of a list.
    pub fn put_immutable(
        &mut self,
        target: Id,
        value: Bytes,
        nodes: Vec<Node>,
        sender: ResponseSender,
        now: u64,
    )
        ensures
            final(self)@ == old(self)@.store(
                target,
                node_views(nodes@),
                StoreView::Immutable { value: content(value) },
                sender,
                now,
            ),
            old(self)@.wf() ==> final(self)@.wf(),
    {
        self.store(target, nodes, StoreItem::Immutable { value }, sender, now);
    }

    /// Asks for the mutable items under a target, with a query that starts or is under way.
    ///
    /// The outcome of looking up each of [`Rpc::bootstrap`] plays no part unless
    /// [`Rpc::needs_bootstrap`] says so.
    pub fn get_mutable(
        &mut self,
        target: Id,
        salt: Option<Bytes>,
        sender: ResponseSender,
        resolved: &Vec<Option<Vec<SocketAddr>>>,
        now: u64,
    )
        ensures
            final(self)@ == old(self)@.get_value(
                target,
                option_content(salt),
                sender,
                resolved_addresses(resolved@),
                now,
            ),
            old(self)@.wf() ==> final(self)@.wf(),
    {
        let requester_id = self.id;
        self.query(
            target,
            RequestSpecific::GetValue(
                GetValueRequestArguments { requester_id, target, seq: None, salt },
            ),
            Some(sender),
            resolved,
            now,
        );
    }

    /// Stores a mutable item at the nodes of a list.
    pub fn put_mutable(
        &mut self,
        item: MutableItem,
        nodes: Vec<Node>,
        sender: ResponseSender,
        now: u64,
    )
        ensures
            final(self)@ == old(self)@.store(
                item@.target,
                node_views(nodes@),
                StoreView::Mutable { item: item@ },
                sender,
                now,
            ),
            old(self)@.wf() ==> final(self)@.wf(),
    {
        let target = *item.target();
        self.store(target, nodes, StoreItem::Mutable { item }, sender, now);
    }
}

/// The state after the first `seen` nodes of the routing table were checked.
spec fn pinged(before: RpcView, seen: int, now: u64) -> RpcView {
    let all = before.routing_table.nodes;
    RpcView {
        last_table_ping: now,
        routing_table: TableView {
            nodes: part_filtered(all, not_stale(now), seen),
            ..before.routing_table
        },
        socket: before.socket.request_all(
            addresses(all.take(seen).filter(to_ping(now))),
            RequestView::Ping { requester_id: before.id },
            now,
        ),
        ..before
    }
}

/// The next node to check comes right after those that stay.
proof fn lemma_next_to_check(all: Seq<NodeView>, i: int, now: u64)
    requires
        0 <= i < all.len(),
        distinct_keys(all, |n: NodeView| n.id),
    ensures
        ({
            let kept = all.take(i).filter(not_stale(now));
            let nodes = kept + all.skip(i);
            &&& first_index(nodes, has_id(all[i].id)) == kept.len()
            &&& nodes.remove(kept.len() as int) == kept + all.skip(i + 1)
            &&& nodes == kept.push(all[i]) + all.skip(i + 1)
        }),
{
    let kept = all.take(i).filter(not_stale(now));
    let nodes = kept + all.skip(i);
    lemma_filter_members(all.take(i), not_stale(now));
    assert forall|j: int| 0 <= j < kept.len() implies !has_id(all[i].id)(#[trigger] nodes[j]) by {
        assert(nodes[j] == kept[j]);
        let k = choose|k: int| 0 <= k < i && all.take(i)[k] == kept[j];
        assert(all[k] == kept[j]);
    }
    assert(nodes[kept.len() as int] == all[i]);
    lemma_first_index_is(nodes, has_id(all[i].id), kept.len() as int);
    assert(nodes.remove(kept.len() as int) =~= kept + all.skip(i + 1));
    assert(nodes =~= kept.push(all[i]) + all.skip(i + 1));
}

/// The state after the first `seen` queries were checked.
spec fn finished(before: RpcView, seen: int, now: u64) -> RpcView {
    let all = before.queries;
    let part = RpcView { queries: all.take(seen), ..before };
    RpcView {
        closest_nodes: put_all_closest(before.closest_nodes, part.results(now)),
        queries: part_filtered(all, query_running(), seen),
        events: before.events + part.bootstrap_events(),
        ..before
    }
}

/// Checking one query more: where it is over, its result is kept, and noted where it is the
/// look-up of the own identifier.
proof fn lemma_finished(before: RpcView, seen: int, now: u64)
    requires
        0 <= seen < before.queries.len(),
    ensures
        ({
            let q = before.queries[seen];
            let this = finished(before, seen, now);
            let next = finished(before, seen + 1, now);
            let size = before.routing_table.nodes.len();
            &&& !q.is_done() ==> next.closest_nodes == this.closest_nodes && next.events
                == this.events
            &&& q.is_done() ==> next.closest_nodes == put_closest(
                this.closest_nodes,
                ClosestView { target: q.target, nodes: q.closest(), found_at: now },
            )
            &&& q.is_done() && q.target != before.id ==> next.events == this.events
            &&& q.is_done() && q.target == before.id ==> next.events == this.events.push(
                if size == 0 {
                    EventView::BootstrapFailed
                } else {
                    EventView::Bootstrapped { table_size: size }
                },
            )
        }),
{
    let all = before.queries;
    let q = all[seen];
    let part = RpcView { queries: all.take(seen), ..before };
    let more = RpcView { queries: all.take(seen + 1), ..before };
    lemma_filter_take(all, query_over(), seen);
    if q.is_done() {
        let over = all.take(seen).filter(query_over());
        lemma_filter_push(over, query_about(before.id), q);
        assert(more.results(now).drop_last() =~= part.results(now));
        if q.target == before.id {
            assert(more.bootstrap_events() =~= part.bootstrap_events().push(
                more.bootstrap_events().last(),
            ));
            assert(finished(before, seen + 1, now).events =~= finished(
                before,
                seen,
                now,
            ).events.push(more.bootstrap_events().last()));
        }
    }
}

/// Tells a query of the nodes that a response names, and of the token that it brings.
fn learn(query: &mut Query, from: SocketAddr, message: &Message, now: u64)
    ensures
        final(query)@ == old(query)@.learn(from, message@, now),
{
    if let Some(nodes) = message.get_closer_nodes() {
        query.add_candidates(&nodes, now);
    }
    if let Some((responder_id, token)) = message.get_token() {
        query.add_responding_node(Node::new(responder_id, from, now).with_token(token), now);
    }
}

/// Brings a query the values of a response, as [`QueryView::take_in`] says.
fn take_in(
    query: &mut Query,
    events: &mut Vec<Event>,
    from: SocketAddr,
    message: &Message,
    now: u64,
)
    requires
        message@.hashable(),
    ensures
        ({
            let (after, told) = old(query)@.take_in(from, message@, now);
            &&& final(query)@ == after
            &&& event_views(final(events)@) == event_views(old(events)@) + told
        }),
{
    let ghost before = query@;
    let ghost told = event_views(events@);
    match &message.message_type {
        MessageType::Response(ResponseSpecific::GetPeers(arguments)) => {
            let ghost found = peer_values(
                NodeView::fresh(arguments.responder_id, from, now),
                arguments.values@,
            );
            let mut i: usize = 0;
            assert(query@ =~= before.respond_all(found.take(0)));
            assert(event_views(events@) =~= told + tell_all(before.senders, found.take(0)));
            while i < arguments.values.len()
                invariant
                    i <= arguments.values.len(),
                    found == peer_values(
                        NodeView::fresh(arguments.responder_id, from, now),
                        arguments.values@,
                    ),
                    query@ == before.respond_all(found.take(i as int)),
                    event_views(events@) == told + tell_all(before.senders, found.take(i as int)),
                decreases arguments.values.len() - i,
            {
                let value = ResponseValue::Peer(
                    GetPeerResponse {
                        from: Node::new(arguments.responder_id, from, now),
                        peer: arguments.values[i],
                    },
                );
                proof {
                    let next = found.take(i as int + 1);
                    assert(next.drop_last() =~= found.take(i as int));
                    assert(next.last() == value@);
                    assert(next =~= found.take(i as int).push(value@));
                }
                query.response(value, events);
                i = i + 1;
                assert(query@ =~= before.respond_all(found.take(i as int)));
                assert(event_views(events@) =~= told + tell_all(
                    before.senders,
                    found.take(i as int),
                ));
            }
            assert(found.take(found.len() as int) =~= found);
        },
        MessageType::Response(ResponseSpecific::GetImmutable(arguments)) => {
            let valid = validate_immutable(&arguments.v, query.target());
            query.settle_immutable(
                Node::new(arguments.responder_id, from, now),
                from_vec(clone_bytes(&arguments.v)),
                valid,
                events,
            );
        },
        MessageType::Response(ResponseSpecific::GetMutable(arguments)) => {
            let salt: Option<Bytes> = match query.request() {
                RequestSpecific::GetValue(asked) => share_option(&asked.salt),
                _ => None,
            };
            let item = MutableItem::from_dht_message(
                query.target(),
                &arguments.k,
                from_vec(clone_bytes(&arguments.v)),
                &arguments.seq,
                &arguments.sig,
                &salt,
                &None,
            );
            query.settle_mutable(
                Node::new(arguments.responder_id, from, now),
                from_vec(clone_bytes(&arguments.v)),
                arguments.seq,
                clone_bytes(&arguments.sig),
                salt,
                item,
                events,
            );
        },
        _ => {
            assert(event_views(events@) =~= told + Seq::<EventView>::empty());
        },
    }
}

} // verus!
