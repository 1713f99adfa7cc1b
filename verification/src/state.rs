//! The state of a node, and what each operation makes of it.

use crate::address::SocketAddr;
use crate::cache::{key_of, Key, StoredView};
use crate::clock::spec_elapsed;
use crate::closest::{cached_nodes, put_all_closest, ClosestView};
use crate::id::Id;
use crate::item::{immutable_target, ItemView};
use crate::messages::{MessageTypeView, MessageView, RequestView, ResponseView};
use crate::node::NodeView;
use crate::peers::PeersView;
use crate::query::{addresses, asked_salt, broadcast_to, QueryView, StoreQueryView};
use crate::response::{
    EventView, RequestSender, ResponseMessageView, ResponseSender, ResponseValueView,
};
use crate::routing_table::TableView;
use crate::seqs::{distinct_keys, first_index};
use crate::socket::SocketView;
use crate::tokens::TokensView;
use vstd::prelude::*;

verus! {

/// How often an empty routing table is refreshed with a look-up of the own identifier: every
/// fifteen minutes.
pub const REFRESH_TABLE_INTERVAL: u64 = 900_000_000_000;

/// How often the nodes of the routing table are pinged: every five minutes.
pub const PING_TABLE_INTERVAL: u64 = 300_000_000_000;

/// For how many info hashes a node keeps peers.
pub const MAX_INFO_HASHES: usize = 2000;

/// How many peers a node keeps for an info hash.
pub const MAX_PEERS: usize = 500;

/// How many immutable values, and how many mutable ones, a node keeps.
pub const MAX_VALUES: usize = 1000;

/// The hosts through which a node finds the network unless it is given others.
pub open spec fn default_bootstrap_nodes() -> Seq<Seq<char>> {
    seq![
        "router.bittorrent.com:6881"@,
        "dht.transmissionbt.com:6881"@,
        "dht.libtorrent.org:25401"@,
        "dht.anacrolix.link:42069"@,
    ]
}

/// What a store of values holds.
#[verifier::ext_equal]
pub struct CacheView {
    /// The entries, most recently used first.
    pub entries: Seq<(Key, StoredView)>,
    /// How many there can be.
    pub capacity: nat,
}

/// The state of a node.
#[verifier::ext_equal]
pub struct RpcView {
    pub id: Id,
    pub bootstrap: Seq<Seq<char>>,
    pub socket: SocketView,
    pub routing_table: TableView,
    /// The queries under way, the first started first.
    pub queries: Seq<QueryView>,
    /// The store queries under way, the first started first.
    pub store_queries: Seq<StoreQueryView>,
    /// What finished queries found.
    pub closest_nodes: Seq<ClosestView>,
    pub tokens: TokensView,
    pub peers: PeersView,
    pub immutable_values: CacheView,
    pub mutable_values: CacheView,
    pub last_table_refresh: u64,
    pub last_table_ping: u64,
    pub custom_request_handler: Option<RequestSender>,
    /// What the node has told its surroundings, the first first.
    pub events: Seq<EventView>,
}

/// Whether a query walks towards `target`.
pub open spec fn query_about(target: Id) -> spec_fn(QueryView) -> bool {
    |q: QueryView| q.target == target
}

/// Whether a store query stores under `target`.
pub open spec fn store_about(target: Id) -> spec_fn(StoreQueryView) -> bool {
    |q: StoreQueryView| q.target == target
}

/// Whether a query waits for the answer to a transaction.
pub open spec fn query_expecting(tid: u16) -> spec_fn(QueryView) -> bool {
    |q: QueryView| q.expects(tid)
}

/// Whether a store query waits for the answer to a transaction.
pub open spec fn store_expecting(tid: u16) -> spec_fn(StoreQueryView) -> bool {
    |q: StoreQueryView| q.expects(tid)
}

/// Whether a query is still under way.
pub open spec fn query_running() -> spec_fn(QueryView) -> bool {
    |q: QueryView| !q.is_done()
}

/// Whether a query is over.
pub open spec fn query_over() -> spec_fn(QueryView) -> bool {
    |q: QueryView| q.is_done()
}

/// Whether a store query is still under way.
pub open spec fn store_running() -> spec_fn(StoreQueryView) -> bool {
    |q: StoreQueryView| !q.is_done()
}

/// Whether a result is not too old.
pub open spec fn still_valid(now: u64) -> spec_fn(ClosestView) -> bool {
    |c: ClosestView| !c.expired(now)
}

/// Whether a node is not stale.
pub open spec fn not_stale(now: u64) -> spec_fn(NodeView) -> bool {
    |n: NodeView| !n.is_stale(now)
}

/// Whether a node is to be pinged: it is not stale, and was not heard of just now.
pub open spec fn to_ping(now: u64) -> spec_fn(NodeView) -> bool {
    |n: NodeView| !n.is_stale(now) && n.should_ping(now)
}

/// The addresses that some look-ups gave, one look-up after the other; one that failed gives
/// none.
pub open spec fn resolved_addresses(resolved: Seq<Option<Vec<SocketAddr>>>) -> Seq<SocketAddr>
    decreases resolved.len(),
{
    if resolved.len() == 0 {
        Seq::empty()
    } else {
        resolved_addresses(resolved.drop_last()) + match resolved.last() {
            Some(found) => found@,
            None => Seq::empty(),
        }
    }
}

/// What a store query stores.
#[verifier::ext_equal]
pub enum StoreView {
    /// The author as a peer, on a port or on the one that it sends from.
    Peer { port: Option<u16> },
    Immutable { value: Seq<u8> },
    Mutable { item: ItemView },
}

impl StoreView {
    /// The request that stores it under `target` at a node that handed out `token`.
    pub open spec fn request(self, requester_id: Id, target: Id, token: Seq<u8>) -> RequestView {
        match self {
            StoreView::Peer { port } => RequestView::AnnouncePeer {
                requester_id,
                info_hash: target,
                port: match port {
                    Some(p) => p,
                    None => 0,
                },
                implied_port: match port {
                    Some(_) => None,
                    None => Some(true),
                },
                token,
            },
            StoreView::Immutable { value } => RequestView::PutImmutable {
                requester_id,
                target,
                token,
                v: value,
            },
            StoreView::Mutable { item } => RequestView::PutMutable {
                requester_id,
                target,
                token,
                v: item.value,
                k: item.key,
                seq: item.seq,
                sig: item.signature,
                salt: item.salt,
                cas: item.cas,
            },
        }
    }
}

/// Asking the nodes of a list to store something, in order: each that handed out a token is sent
/// the request with its token, and the others are passed over.
pub open spec fn store_at(
    query: StoreQueryView,
    socket: SocketView,
    nodes: Seq<NodeView>,
    what: StoreView,
    requester_id: Id,
    now: u64,
) -> (StoreQueryView, SocketView)
    decreases nodes.len(),
{
    if nodes.len() == 0 {
        (query, socket)
    } else {
        let (q, s) = store_at(query, socket, nodes.drop_last(), what, requester_id, now);
        match nodes.last().token {
            Some(token) => q.request(
                s,
                nodes.last(),
                what.request(requester_id, query.target, token),
                now,
            ),
            None => (q, s),
        }
    }
}

/// A list of store queries with one more, in place of an earlier one under the same target.
pub open spec fn put_store(list: Seq<StoreQueryView>, query: StoreQueryView) -> Seq<
    StoreQueryView,
> {
    let index = first_index(list, store_about(query.target));
    if index < list.len() {
        list.update(index, query)
    } else {
        list.push(query)
    }
}

/// Several values, each on its way to each of several receivers.
pub open spec fn tell_all(
    senders: Seq<ResponseSender>,
    values: Seq<ResponseValueView>,
) -> Seq<EventView>
    decreases values.len(),
{
    if values.len() == 0 {
        Seq::empty()
    } else {
        tell_all(senders, values.drop_last()) + broadcast_to(
            senders,
            ResponseMessageView::Value(values.last()),
        )
    }
}

/// The peers that a response names, as values.
pub open spec fn peer_values(from: NodeView, peers: Seq<SocketAddr>) -> Seq<ResponseValueView> {
    peers.map_values(|peer: SocketAddr| ResponseValueView::Peer { from, peer })
}

impl QueryView {
    /// What a query learns of other nodes from a response: the nodes nearer to the target that it
    /// names are to be visited, and its author answered with a token where it brings one.
    pub open spec fn learn(self, from: SocketAddr, message: MessageView, now: u64) -> QueryView {
        let q = match message.closer_nodes() {
            Some(nodes) => self.add_candidates(nodes, now),
            None => self,
        };
        match message.token() {
            Some((id, token)) => q.add_responding_node(
                NodeView::fresh(id, from, now).with_token(token),
                now,
            ),
            None => q,
        }
    }

    /// The query with more values seen.
    pub open spec fn respond_all(self, values: Seq<ResponseValueView>) -> QueryView {
        QueryView { responses: self.responses + values, ..self }
    }

    /// What a query makes of the values that a response brings: every peer is passed on; an
    /// immutable value where it is the one that the target stands for; and a mutable item where
    /// its signature holds. What is not passed on is noted.
    pub open spec fn take_in(self, from: SocketAddr, message: MessageView, now: u64) -> (
        QueryView,
        Seq<EventView>,
    ) {
        match message.message_type {
            MessageTypeView::Response(ResponseView::GetPeers { responder_id, values, .. }) => {
                let found = peer_values(NodeView::fresh(responder_id, from, now), values);
                (self.respond_all(found), tell_all(self.senders, found))
            },
            MessageTypeView::Response(ResponseView::GetImmutable { responder_id, v, .. }) => {
                self.settle_immutable(
                    NodeView::fresh(responder_id, from, now),
                    v,
                    immutable_target(v) == self.target,
                )
            },
            MessageTypeView::Response(
                ResponseView::GetMutable { responder_id, v, k, seq, sig, .. },
            ) => {
                let item = ItemView {
                    target: self.target,
                    key: k,
                    seq,
                    value: v,
                    signature: sig,
                    salt: asked_salt(self.request),
                    cas: None,
                };
                self.settle_mutable(
                    NodeView::fresh(responder_id, from, now),
                    v,
                    seq,
                    sig,
                    item.salt,
                    if item.signed() {
                        Some(item)
                    } else {
                        None
                    },
                )
            },
            _ => (self, Seq::empty()),
        }
    }
}

impl CacheView {
    /// What every store of values keeps: no more entries than it may, and no key twice.
    pub open spec fn wf(self) -> bool {
        &&& 0 < self.capacity
        &&& self.entries.len() <= self.capacity
        &&& distinct_keys(self.entries, |e: (Key, StoredView)| e.0)
    }
}

/// Whether an entry is an immutable value under its own hash.
pub open spec fn valid_immutable(entry: (Key, StoredView)) -> bool {
    match entry.1 {
        StoredView::Immutable(value) => entry.0 == key_of(immutable_target(value)),
        StoredView::Mutable(_) => false,
    }
}

/// Whether an entry is a mutable item under its own target, with a signature that holds.
pub open spec fn valid_mutable(entry: (Key, StoredView)) -> bool {
    match entry.1 {
        StoredView::Immutable(_) => false,
        StoredView::Mutable(item) => entry.0 == key_of(item.target) && item.signed(),
    }
}

impl RpcView {
    /// A node that has just been started.
    pub open spec fn fresh(
        id: Id,
        prev_secret: Seq<u8>,
        curr_secret: Seq<u8>,
        local_addr: SocketAddr,
        now: u64,
    ) -> RpcView {
        RpcView {
            id,
            bootstrap: default_bootstrap_nodes(),
            socket: SocketView::bound(local_addr),
            routing_table: TableView::empty(id),
            queries: Seq::empty(),
            store_queries: Seq::empty(),
            closest_nodes: Seq::empty(),
            tokens: TokensView { prev_secret, curr_secret, last_updated: now },
            peers: PeersView {
                max_info_hashes: MAX_INFO_HASHES as nat,
                max_peers: MAX_PEERS as nat,
                swarms: Seq::empty(),
            },
            immutable_values: CacheView { entries: Seq::empty(), capacity: MAX_VALUES as nat },
            mutable_values: CacheView { entries: Seq::empty(), capacity: MAX_VALUES as nat },
            last_table_refresh: (now - REFRESH_TABLE_INTERVAL) as u64,
            last_table_ping: now,
            custom_request_handler: None,
            events: Seq::empty(),
        }
    }

    /// What every node keeps: its routing table and its queries are in order, no two queries, no
    /// two store queries and no two results are about the same target, and every value that it
    /// stores for others belongs under its key.
    pub open spec fn wf(self) -> bool {
        &&& self.routing_table.wf()
        &&& distinct_keys(self.queries, |q: QueryView| q.target)
        &&& forall|i: int| 0 <= i < self.queries.len() ==> (#[trigger] self.queries[i]).wf()
        &&& distinct_keys(self.store_queries, |q: StoreQueryView| q.target)
        &&& distinct_keys(self.closest_nodes, |c: ClosestView| c.target)
        &&& self.peers.wf()
        &&& self.immutable_values.wf()
        &&& self.mutable_values.wf()
        &&& forall|i: int|
            0 <= i < self.immutable_values.entries.len() ==> valid_immutable(
                #[trigger] self.immutable_values.entries[i],
            )
        &&& forall|i: int|
            0 <= i < self.mutable_values.entries.len() ==> valid_mutable(
                #[trigger] self.mutable_values.entries[i],
            )
    }

    /// Whether a query for `target` is under way.
    pub open spec fn has_query(self, target: Id) -> bool {
        first_index(self.queries, query_about(target)) < self.queries.len()
    }

    /// Whether the routing table knows too few nodes near `target` to start a query with: none,
    /// or fewer than there are hosts to find the network through.
    pub open spec fn too_few_nodes(self, target: Id) -> bool {
        let closest = self.routing_table.closest(target);
        closest.len() == 0 || closest.len() < self.bootstrap.len()
    }

    /// Whether a query for `target` would start at the hosts to find the network through.
    pub open spec fn needs_bootstrap(self, target: Id) -> bool {
        !self.has_query(target) && self.too_few_nodes(target)
    }

    /// A query that starts now, and the socket after its first requests: at `found`, the addresses
    /// of the hosts to find the network through, where the routing table knows too few nodes;
    /// otherwise at the nearest of the nodes that the routing table knows and an earlier query
    /// found.
    pub open spec fn started(
        self,
        target: Id,
        request: RequestView,
        sender: Option<ResponseSender>,
        found: Seq<SocketAddr>,
        now: u64,
    ) -> (QueryView, SocketView) {
        let fresh = QueryView::fresh(target, request).add_sender(sender);
        if self.too_few_nodes(target) {
            fresh.visit_all(self.socket, found, now)
        } else {
            fresh.add_candidates(self.routing_table.closest(target), now).add_candidates(
                cached_nodes(self.closest_nodes, target),
                now,
            ).visit_closest(self.socket, now)
        }
    }

    /// Asking for a query: where one for the target is under way, the receiver joins it and is
    /// told what it found so far; otherwise one starts.
    pub open spec fn query(
        self,
        target: Id,
        request: RequestView,
        sender: Option<ResponseSender>,
        found: Seq<SocketAddr>,
        now: u64,
    ) -> RpcView {
        let index = first_index(self.queries, query_about(target));
        if index < self.queries.len() {
            RpcView {
                queries: self.queries.update(index, self.queries[index].add_sender(sender)),
                events: self.events + self.queries[index].catch_up(sender),
                ..self
            }
        } else {
            let (q, s) = self.started(target, request, sender, found, now);
            RpcView { queries: self.queries.push(q), socket: s, ..self }
        }
    }

    /// Asking for the peers for an info hash.
    pub open spec fn get_peers(
        self,
        info_hash: Id,
        sender: ResponseSender,
        found: Seq<SocketAddr>,
        now: u64,
    ) -> RpcView {
        self.query(
            info_hash,
            RequestView::GetPeers { requester_id: self.id, info_hash },
            Some(sender),
            found,
            now,
        )
    }

    /// Asking for the value under a target: of a mutable item with a salt, where there is one.
    pub open spec fn get_value(
        self,
        target: Id,
        salt: Option<Seq<u8>>,
        sender: ResponseSender,
        found: Seq<SocketAddr>,
        now: u64,
    ) -> RpcView {
        self.query(
            target,
            RequestView::GetValue { requester_id: self.id, target, seq: None, salt },
            Some(sender),
            found,
            now,
        )
    }

    /// Storing something at nodes: those that handed out a token are asked to, and a store query
    /// waits for their answers, in place of an earlier one under the same target.
    pub open spec fn store(
        self,
        target: Id,
        nodes: Seq<NodeView>,
        what: StoreView,
        sender: ResponseSender,
        now: u64,
    ) -> RpcView {
        let (q, s) = store_at(
            StoreQueryView::fresh(target, sender),
            self.socket,
            nodes,
            what,
            self.id,
            now,
        );
        RpcView { store_queries: put_store(self.store_queries, q), socket: s, ..self }
    }

    /// Taking in a response.
    ///
    /// One from a node that is read-only is ignored. One that a store query waits for counts as a
    /// success where it is a ping response. One that a query waits for tells the query of other
    /// nodes and brings it values. Any other is ignored.
    pub open spec fn handle_response(
        self,
        from: SocketAddr,
        message: MessageView,
        now: u64,
    ) -> RpcView {
        let tid = message.transaction_id;
        let store = first_index(self.store_queries, store_expecting(tid));
        let query = first_index(self.queries, query_expecting(tid));
        if message.read_only {
            self
        } else if store < self.store_queries.len() {
            let answered = self.store_queries[store].answered(tid);
            let after = match message.message_type {
                MessageTypeView::Response(ResponseView::Ping { responder_id }) => answered.success(
                    responder_id,
                ),
                _ => answered,
            };
            RpcView { store_queries: self.store_queries.update(store, after), ..self }
        } else if query < self.queries.len() {
            let (after, told) = self.queries[query].answered(tid).learn(
                from,
                message,
                now,
            ).take_in(from, message, now);
            RpcView {
                queries: self.queries.update(query, after),
                events: self.events + told,
                ..self
            }
        } else {
            self
        }
    }

    /// Noting the author of a message in the routing table, unless it is read-only or not named.
    pub open spec fn add_node(self, message: MessageView, from: SocketAddr, now: u64) -> RpcView {
        if message.read_only {
            self
        } else {
            match message.author_id() {
                Some(id) => RpcView {
                    routing_table: self.routing_table.add(NodeView::fresh(id, from, now), now),
                    ..self
                },
                None => self,
            }
        }
    }

    /// What finished queries found, as results of `now`.
    pub open spec fn results(self, now: u64) -> Seq<ClosestView> {
        self.queries.filter(query_over()).map_values(
            |q: QueryView| ClosestView { target: q.target, nodes: q.closest(), found_at: now },
        )
    }

    /// What is noted of the look-up of the own identifier, where it is over.
    pub open spec fn bootstrap_events(self) -> Seq<EventView> {
        let own = self.queries.filter(query_over()).filter(query_about(self.id));
        let size = self.routing_table.nodes.len();
        own.map_values(
            |q: QueryView|
                if size == 0 {
                    EventView::BootstrapFailed
                } else {
                    EventView::Bootstrapped { table_size: size }
                },
        )
    }

    /// Taking out what is over: results that are too old are dropped, queries that are over leave
    /// their results and go, and store queries that are over go.
    pub open spec fn maintain_queries(self, now: u64) -> RpcView {
        RpcView {
            closest_nodes: put_all_closest(
                self.closest_nodes.filter(still_valid(now)),
                self.results(now),
            ),
            queries: self.queries.filter(query_running()),
            store_queries: self.store_queries.filter(store_running()),
            events: self.events + self.bootstrap_events(),
            ..self
        }
    }

    /// Looking up the own identifier, to fill the routing table.
    pub open spec fn populate(self, found: Seq<SocketAddr>, now: u64) -> RpcView {
        self.query(
            self.id,
            RequestView::FindNode { requester_id: self.id, target: self.id },
            None,
            found,
            now,
        )
    }

    /// Whether the routing table is empty, and its last refresh is longer ago than
    /// [`REFRESH_TABLE_INTERVAL`].
    pub open spec fn refresh_due(self, now: u64) -> bool {
        self.routing_table.nodes.len() == 0 && spec_elapsed(self.last_table_refresh, now)
            > REFRESH_TABLE_INTERVAL
    }

    /// Whether the nodes of the routing table were not pinged for longer than
    /// [`PING_TABLE_INTERVAL`].
    pub open spec fn ping_due(self, now: u64) -> bool {
        spec_elapsed(self.last_table_ping, now) > PING_TABLE_INTERVAL
    }

    /// Refreshing the routing table where that is due.
    pub open spec fn refresh_table(self, found: Seq<SocketAddr>, now: u64) -> RpcView {
        if self.refresh_due(now) {
            RpcView { last_table_refresh: now, ..self }.populate(found, now)
        } else {
            self
        }
    }

    /// Going through the routing table where that is due: stale nodes leave, and the others are
    /// pinged unless they were heard of just now.
    pub open spec fn ping_table(self, now: u64) -> RpcView {
        if self.ping_due(now) {
            RpcView {
                last_table_ping: now,
                routing_table: TableView {
                    nodes: self.routing_table.nodes.filter(not_stale(now)),
                    ..self.routing_table
                },
                socket: self.socket.request_all(
                    addresses(self.routing_table.nodes.filter(to_ping(now))),
                    RequestView::Ping { requester_id: self.id },
                    now,
                ),
                ..self
            }
        } else {
            self
        }
    }

    /// Looking after the routing table.
    pub open spec fn maintain_routing_table(self, found: Seq<SocketAddr>, now: u64) -> RpcView {
        self.refresh_table(found, now).ping_table(now)
    }

    /// A new secret for the tokens, where that is due.
    pub open spec fn rotate_tokens(self, secret: Seq<u8>, now: u64) -> RpcView {
        if self.tokens.should_update(now) {
            RpcView { tokens: self.tokens.rotate(secret, now), ..self }
        } else {
            self
        }
    }

    /// A step of each of the first `n` queries.
    pub open spec fn tick_queries(self, n: nat, now: u64) -> RpcView
        decreases n,
    {
        if n == 0 {
            self
        } else {
            let before = self.tick_queries((n - 1) as nat, now);
            let (q, s, told) = before.queries[n - 1].tick(before.socket, now);
            RpcView {
                queries: before.queries.update(n - 1, q),
                socket: s,
                events: before.events + told,
                ..before
            }
        }
    }

    /// A step of each of the first `n` store queries.
    pub open spec fn tick_store_queries(self, n: nat) -> RpcView
        decreases n,
    {
        if n == 0 {
            self
        } else {
            let before = self.tick_store_queries((n - 1) as nat);
            let (q, told) = before.store_queries[n - 1].tick(before.socket);
            RpcView {
                store_queries: before.store_queries.update(n - 1, q),
                events: before.events + told,
                ..before
            }
        }
    }

    /// What a node does of itself: it changes the secret behind its tokens, makes a step of each
    /// query, takes out what is over, and looks after the routing table.
    pub open spec fn maintain(self, secret: Seq<u8>, found: Seq<SocketAddr>, now: u64) -> RpcView {
        let rotated = self.rotate_tokens(secret, now);
        let walked = rotated.tick_queries(rotated.queries.len(), now);
        let stored = walked.tick_store_queries(walked.store_queries.len());
        stored.maintain_queries(now).maintain_routing_table(found, now)
    }

    /// What a node does with a message that its socket let through: it notes the author; a request
    /// goes to the custom handler where there is one, and is answered otherwise; a response is
    /// taken in; an error is noted.
    pub open spec fn handle_message(
        self,
        message: MessageView,
        from: SocketAddr,
        now: u64,
    ) -> RpcView {
        let noted = self.add_node(message, from, now);
        match message.message_type {
            MessageTypeView::Request(request) => match noted.custom_request_handler {
                Some(to) => RpcView {
                    events: noted.events.push(
                        EventView::Request {
                            to,
                            from,
                            transaction_id: message.transaction_id,
                            request,
                        },
                    ),
                    ..noted
                },
                None => noted.handle_request(from, message.transaction_id, request),
            },
            MessageTypeView::Response(_) => noted.handle_response(from, message, now),
            MessageTypeView::Error(error) => RpcView {
                events: noted.events.push(EventView::ErrorResponse { error }),
                ..noted
            },
        }
    }

    /// What a node does with what arrives: requests that timed out are forgotten, and a message
    /// that the socket lets through is handled.
    pub open spec fn receive(
        self,
        incoming: Option<(MessageView, SocketAddr)>,
        now: u64,
    ) -> RpcView {
        match incoming {
            Some((message, from)) => {
                let (s, through) = self.socket.receive(message, from, now);
                let heard = RpcView { socket: s, ..self };
                if through {
                    heard.handle_message(message, from, now)
                } else {
                    heard
                }
            },
            None => RpcView { socket: self.socket.without_timed_out(now), ..self },
        }
    }

    /// A step of a node: what it does of itself, and then what it does with what arrives.
    pub open spec fn tick(
        self,
        secret: Seq<u8>,
        found: Seq<SocketAddr>,
        incoming: Option<(MessageView, SocketAddr)>,
        now: u64,
    ) -> RpcView {
        self.maintain(secret, found, now).receive(incoming, now)
    }
}

} // verus!
