//! Queries: walking the network towards a target, and storing something near it.

use crate::address::SocketAddr;
use crate::buffer::{content, option_content};
use crate::id::Id;
use crate::item::{immutable_target, InvalidItem, ItemView, MutableItem};
use crate::messages::{RequestSpecific, RequestView};
use crate::node::{clone_nodes, node_views, Node, NodeView};
use crate::response::{
    event_views, push_event, value_event, value_views, Event, EventView, GetImmutableResponse,
    GetMutableResponse, ResponseDone, ResponseMessage, ResponseMessageView, ResponseSender,
    ResponseValue, ResponseValueView, StoreQueryMetdata,
};
use crate::routing_table::{RoutingTable, TableView};
use crate::seqs::{first_index, lemma_filter_take, lemma_first_index_is};
use crate::socket::{KrpcSocket, SocketView};
use bytes::Bytes;
use vstd::prelude::*;

verus! {

/// A walk through the network: one request, sent to nodes nearer and nearer to its target until
/// no more are found.
#[derive(Debug)]
pub struct Query {
    target: Id,
    request: RequestSpecific,
    /// The nodes to visit, nearest to the target first.
    candidates: RoutingTable,
    /// The nodes that answered with a token.
    responders: RoutingTable,
    inflight_requests: Vec<u16>,
    visited: Vec<SocketAddr>,
    senders: Vec<ResponseSender>,
    responses: Vec<ResponseValue>,
}

/// What a [`Query`] holds.
#[verifier::ext_equal]
pub struct QueryView {
    pub target: Id,
    pub request: RequestView,
    pub candidates: TableView,
    pub responders: TableView,
    pub inflight: Seq<u16>,
    pub visited: Seq<SocketAddr>,
    pub senders: Seq<ResponseSender>,
    pub responses: Seq<ResponseValueView>,
}

impl View for Query {
    type V = QueryView;

    closed spec fn view(&self) -> QueryView {
        QueryView {
            target: self.target,
            request: self.request@,
            candidates: self.candidates@,
            responders: self.responders@,
            inflight: self.inflight_requests@,
            visited: self.visited@,
            senders: self.senders@,
            responses: value_views(self.responses@),
        }
    }
}

/// What a list of queries holds.
pub open spec fn query_views(queries: Seq<Query>) -> Seq<QueryView> {
    queries.map_values(|q: Query| q@)
}

/// Whether something is `x`.
pub open spec fn is_value<A>(x: A) -> spec_fn(A) -> bool {
    |y: A| y == x
}

/// Whether the socket still awaits an answer under a transaction.
pub open spec fn awaited_by(socket: SocketView) -> spec_fn(u16) -> bool {
    |tid: u16| socket.awaits(tid)
}

/// The addresses of some nodes.
pub open spec fn addresses(nodes: Seq<NodeView>) -> Seq<SocketAddr> {
    nodes.map_values(|n: NodeView| n.address)
}

/// All the values seen so far, on their way to one receiver.
pub open spec fn replay(to: ResponseSender, values: Seq<ResponseValueView>) -> Seq<EventView> {
    values.map_values(|v: ResponseValueView| value_event(to, v))
}

/// One reply, on its way to each of several receivers.
pub open spec fn broadcast_to(
    senders: Seq<ResponseSender>,
    message: ResponseMessageView,
) -> Seq<EventView> {
    senders.map_values(|to: ResponseSender| EventView::Response { to, message })
}

/// The salt that a query asked for.
pub open spec fn asked_salt(request: RequestView) -> Option<Seq<u8>> {
    match request {
        RequestView::GetValue { salt, .. } => salt,
        _ => None,
    }
}

impl QueryView {
    /// A query that has visited nobody yet.
    pub open spec fn fresh(target: Id, request: RequestView) -> QueryView {
        QueryView {
            target,
            request,
            candidates: TableView::empty(target),
            responders: TableView::empty(target),
            inflight: Seq::empty(),
            visited: Seq::empty(),
            senders: Seq::empty(),
            responses: Seq::empty(),
        }
    }

    /// What every query keeps: its tables are about its target, no address is visited twice, and
    /// every value that it passed on is one that the target stands for.
    pub open spec fn wf(self) -> bool {
        &&& self.candidates.wf()
        &&& self.responders.wf()
        &&& self.candidates.id == self.target
        &&& self.responders.id == self.target
        &&& self.visited.no_duplicates()
        &&& forall|i: int|
            0 <= i < self.responses.len() ==> self.vouches_for(#[trigger] self.responses[i])
    }

    /// Whether a value is one that the query may pass on: a peer, the immutable value that the
    /// target stands for, or a mutable item with the salt that was asked for and a signature that
    /// holds.
    pub open spec fn vouches_for(self, value: ResponseValueView) -> bool {
        match value {
            ResponseValueView::Peer { .. } => true,
            ResponseValueView::Immutable { value, .. } => immutable_target(value) == self.target,
            ResponseValueView::Mutable { item, .. } => {
                &&& item.target == self.target
                &&& item.salt == asked_salt(self.request)
                &&& item.signed()
            },
        }
    }

    /// The query with one more receiver, where there is one.
    pub open spec fn add_sender(self, sender: Option<ResponseSender>) -> QueryView {
        match sender {
            Some(s) => QueryView { senders: self.senders.push(s), ..self },
            None => self,
        }
    }

    /// What a new receiver is told at once: every value seen so far.
    pub open spec fn catch_up(self, sender: Option<ResponseSender>) -> Seq<EventView> {
        match sender {
            Some(s) => replay(s, self.responses),
            None => Seq::empty(),
        }
    }

    /// The query with one more node to visit.
    pub open spec fn add_candidate(self, node: NodeView, now: u64) -> QueryView {
        QueryView { candidates: self.candidates.add(node, now), ..self }
    }

    /// The query with more nodes to visit.
    pub open spec fn add_candidates(self, nodes: Seq<NodeView>, now: u64) -> QueryView {
        QueryView { candidates: self.candidates.add_all(nodes, now), ..self }
    }

    /// The query with one more node that answered with a token.
    pub open spec fn add_responding_node(self, node: NodeView, now: u64) -> QueryView {
        QueryView { responders: self.responders.add(node, now), ..self }
    }

    /// The query with one more value seen.
    pub open spec fn response(self, value: ResponseValueView) -> QueryView {
        QueryView { responses: self.responses.push(value), ..self }
    }

    /// What every receiver is told of a value.
    pub open spec fn response_events(self, value: ResponseValueView) -> Seq<EventView> {
        broadcast_to(self.senders, ResponseMessageView::Value(value))
    }

    /// What becomes of an immutable value that a node answered with: it is passed on where it is
    /// the one that the target stands for, and noted otherwise.
    pub open spec fn settle_immutable(self, from: NodeView, value: Seq<u8>, valid: bool) -> (
        QueryView,
        Seq<EventView>,
    ) {
        let response = ResponseValueView::Immutable { from, value };
        if valid {
            (self.response(response), self.response_events(response))
        } else {
            (self, seq![EventView::InvalidImmutable { target: self.target, value }])
        }
    }

    /// What becomes of a mutable item that a node answered with, of which the value, the sequence
    /// number, the signature and the salt that was asked for are given: the item is passed on where
    /// its signature holds, and noted otherwise.
    pub open spec fn settle_mutable(
        self,
        from: NodeView,
        value: Seq<u8>,
        seq: i64,
        signature: Seq<u8>,
        salt: Option<Seq<u8>>,
        item: Option<ItemView>,
    ) -> (QueryView, Seq<EventView>) {
        match item {
            Some(item) => {
                let response = ResponseValueView::Mutable { from, item };
                (self.response(response), self.response_events(response))
            },
            None => (
                self,
                seq![
                    EventView::InvalidMutable { target: self.target, value, seq, signature, salt },
                ],
            ),
        }
    }

    /// Visiting an address: it is sent the request, unless it was before.
    pub open spec fn visit(self, socket: SocketView, address: SocketAddr, now: u64) -> (
        QueryView,
        SocketView,
    ) {
        if self.visited.contains(address) {
            (self, socket)
        } else {
            (
                QueryView {
                    inflight: self.inflight.push(socket.next_tid),
                    visited: self.visited.push(address),
                    ..self
                },
                socket.request(address, self.request, now),
            )
        }
    }

    /// Visiting several addresses, in order.
    pub open spec fn visit_all(
        self,
        socket: SocketView,
        addresses: Seq<SocketAddr>,
        now: u64,
    ) -> (QueryView, SocketView)
        decreases addresses.len(),
    {
        if addresses.len() == 0 {
            (self, socket)
        } else {
            let (q, s) = self.visit_all(socket, addresses.drop_last(), now);
            q.visit(s, addresses.last(), now)
        }
    }

    /// Visiting the nearest of the nodes to visit.
    pub open spec fn visit_closest(self, socket: SocketView, now: u64) -> (QueryView, SocketView) {
        self.visit_all(socket, addresses(self.candidates.closest(self.target)), now)
    }

    /// Whether the query waits for the answer to a transaction.
    pub open spec fn expects(self, tid: u16) -> bool {
        first_index(self.inflight, is_value(tid)) < self.inflight.len()
    }

    /// The query after the answer to a transaction came.
    pub open spec fn answered(self, tid: u16) -> QueryView {
        let index = first_index(self.inflight, is_value(tid));
        if index < self.inflight.len() {
            QueryView { inflight: self.inflight.remove(index), ..self }
        } else {
            self
        }
    }

    /// Whether the query waits for no more answers.
    pub open spec fn is_done(self) -> bool {
        self.inflight.len() == 0
    }

    /// The nodes nearest to the target that answered with a token.
    pub open spec fn closest(self) -> Seq<NodeView> {
        self.responders.closest(self.target)
    }

    /// The last word to every receiver.
    pub open spec fn done_events(self) -> Seq<EventView> {
        broadcast_to(
            self.senders,
            ResponseMessageView::Done {
                visited: self.visited.len(),
                closest_nodes: self.closest(),
            },
        )
    }

    /// A step of the walk: the nearest nodes not visited yet are, the requests that the socket no
    /// longer awaits are given up, and where none is left every receiver hears that the query is
    /// over.
    pub open spec fn tick(self, socket: SocketView, now: u64) -> (
        QueryView,
        SocketView,
        Seq<EventView>,
    ) {
        let (q, s) = self.visit_closest(socket, now);
        let after = QueryView { inflight: q.inflight.filter(awaited_by(s)), ..q };
        (
            after,
            s,
            if after.is_done() {
                after.done_events()
            } else {
                Seq::empty()
            },
        )
    }
}

/// The index of a transaction in a list, or the length of the list.
fn position(tids: &Vec<u16>, tid: u16) -> (r: usize)
    ensures
        r == first_index(tids@, is_value(tid)),
        r <= tids@.len(),
{
    let mut i: usize = 0;
    while i < tids.len() && tids[i] != tid
        invariant
            i <= tids.len(),
            forall|j: int| 0 <= j < i ==> !is_value(tid)(#[trigger] tids@[j]),
        decreases tids.len() - i,
    {
        i = i + 1;
    }
    proof {
        lemma_first_index_is(tids@, is_value(tid), i as int);
    }
    i
}

/// The transactions of a list that the socket still awaits.
fn still_awaited(tids: &Vec<u16>, socket: &KrpcSocket) -> (r: Vec<u16>)
    ensures
        r@ == tids@.filter(awaited_by(socket@)),
{
    let ghost pred = awaited_by(socket@);
    let mut kept: Vec<u16> = Vec::new();
    let mut i: usize = 0;
    proof {
        reveal(Seq::filter);
        assert(kept@ =~= tids@.take(0).filter(pred));
    }
    while i < tids.len()
        invariant
            i <= tids.len(),
            pred == awaited_by(socket@),
            kept@ == tids@.take(i as int).filter(pred),
        decreases tids.len() - i,
    {
        proof {
            lemma_filter_take(tids@, pred, i as int);
        }
        if socket.awaits(tids[i]) {
            kept.push(tids[i]);
        }
        i = i + 1;
    }
    assert(tids@.take(tids@.len() as int) =~= tids@);
    kept
}

impl Query {
    /// A query that has visited nobody yet.
    pub fn new(target: Id, request: RequestSpecific) -> (r: Query)
        ensures
            r@ == QueryView::fresh(target, request@),
    {
        let r = Query {
            target,
            request,
            candidates: RoutingTable::new(target),
            responders: RoutingTable::new(target),
            inflight_requests: Vec::new(),
            visited: Vec::new(),
            senders: Vec::new(),
            responses: Vec::new(),
        };
        assert(r@ =~= QueryView::fresh(target, request@));
        r
    }

    /// What the query walks towards.
    pub fn target(&self) -> (r: &Id)
        ensures
            *r == self@.target,
    {
        &self.target
    }

    /// The request that the query sends.
    pub fn request(&self) -> (r: &RequestSpecific)
        ensures
            r@ == self@.request,
    {
        &self.request
    }

    /// The nodes nearest to the target that answered with a token.
    pub fn closest(&self) -> (r: Vec<Node>)
        ensures
            node_views(r@) == self@.closest(),
    {
        self.responders.closest(&self.target)
    }

    /// Adds a receiver, and tells it every value seen so far.
    pub fn add_sender(&mut self, sender: Option<ResponseSender>, events: &mut Vec<Event>)
        ensures
            final(self)@ == old(self)@.add_sender(sender),
            event_views(final(events)@) == event_views(old(events)@) + old(self)@.catch_up(sender),
    {
        let ghost before = self@;
        let ghost told = event_views(events@);
        if let Some(to) = sender {
            let mut i: usize = 0;
            assert(event_views(events@) =~= told + replay(to, before.responses.take(0)));
            while i < self.responses.len()
                invariant
                    i <= self.responses.len(),
                    self@ == before,
                    event_views(events@) == told + replay(to, before.responses.take(i as int)),
                decreases self.responses.len() - i,
            {
                let value = self.responses[i].clone();
                push_event(
                    events,
                    Event::Response { to, message: ResponseMessage::ResponseValue(value) },
                );
                i = i + 1;
                assert(event_views(events@) =~= told + replay(to, before.responses.take(i as int)));
            }
            assert(before.responses.take(before.responses.len() as int) =~= before.responses);
            self.senders.push(to);
        }
        assert(self@ =~= before.add_sender(sender));
        assert(event_views(events@) =~= told + before.catch_up(sender));
    }

    /// Starts the walk with the nearest of the nodes to visit.
    pub fn start(&mut self, socket: &mut KrpcSocket, now: u64)
        ensures
            (final(self)@, final(socket)@) == old(self)@.visit_closest(old(socket)@, now),
    {
        self.visit_closest(socket, now);
    }

    /// Adds a node to visit.
    pub fn add_candidate(&mut self, node: Node, now: u64)
        ensures
            final(self)@ == old(self)@.add_candidate(node@, now),
    {
        let ghost before = self@;
        self.candidates.add(node, now);
        assert(self@ =~= before.add_candidate(node@, now));
    }

    /// Adds nodes to visit, one after the other.
    pub fn add_candidates(&mut self, nodes: &Vec<Node>, now: u64)
        ensures
            final(self)@ == old(self)@.add_candidates(node_views(nodes@), now),
    {
        let ghost before = self@;
        let ghost all = node_views(nodes@);
        let mut i: usize = 0;
        assert(self@ =~= before.add_candidates(all.take(0), now));
        while i < nodes.len()
            invariant
                i <= nodes.len(),
                all == node_views(nodes@),
                self@ == before.add_candidates(all.take(i as int), now),
            decreases nodes.len() - i,
        {
            let node = nodes[i].clone();
            proof {
                let next = all.take(i as int + 1);
                assert(next.drop_last() =~= all.take(i as int));
                assert(next.last() == node@);
            }
            self.add_candidate(node, now);
            i = i + 1;
        }
        assert(all.take(all.len() as int) =~= all);
    }

    /// Adds a node that answered with a token, and may store something later.
    pub fn add_responding_node(&mut self, node: Node, now: u64)
        ensures
            final(self)@ == old(self)@.add_responding_node(node@, now),
    {
        let ghost before = self@;
        self.responders.add(node, now);
        assert(self@ =~= before.add_responding_node(node@, now));
    }

    /// Tells every receiver of a value, and keeps it for those to come.
    pub fn response(&mut self, value: ResponseValue, events: &mut Vec<Event>)
        ensures
            final(self)@ == old(self)@.response(value@),
            event_views(final(events)@) == event_views(old(events)@) + old(self)@.response_events(
                value@,
            ),
    {
        let ghost before = self@;
        let ghost told = event_views(events@);
        let ghost message = ResponseMessageView::Value(value@);
        let mut i: usize = 0;
        assert(event_views(events@) =~= told + broadcast_to(before.senders.take(0), message));
        while i < self.senders.len()
            invariant
                i <= self.senders.len(),
                self@ == before,
                message == ResponseMessageView::Value(value@),
                event_views(events@) == told + broadcast_to(before.senders.take(i as int), message),
            decreases self.senders.len() - i,
        {
            push_event(
                events,
                Event::Response {
                    to: self.senders[i],
                    message: ResponseMessage::ResponseValue(value.clone()),
                },
            );
            i = i + 1;
            assert(event_views(events@) =~= told + broadcast_to(
                before.senders.take(i as int),
                message,
            ));
        }
        assert(before.senders.take(before.senders.len() as int) =~= before.senders);
        self.responses.push(value);
        assert(self@ =~= before.response(value@));
    }

    /// Whether an address was visited.
    fn has_visited(&self, address: SocketAddr) -> (r: bool)
        ensures
            r == self@.visited.contains(address),
    {
        let mut i: usize = 0;
        while i < self.visited.len()
            invariant
                i <= self.visited.len(),
                forall|j: int| 0 <= j < i ==> #[trigger] self@.visited[j] != address,
            decreases self.visited.len() - i,
        {
            if self.visited[i] == address {
                assert(self@.visited[i as int] == address);
                return true;
            }
            i = i + 1;
        }
        false
    }

    /// Sends the request to an address, unless it was sent there before.
    pub fn visit(&mut self, socket: &mut KrpcSocket, address: SocketAddr, now: u64)
        ensures
            (final(self)@, final(socket)@) == old(self)@.visit(old(socket)@, address, now),
    {
        let ghost before = self@;
        let ghost wire = socket@;
        if self.has_visited(address) {
            return;
        }
        let tid: u16 = socket.request(address, self.request.clone(), now);
        self.inflight_requests.push(tid);
        self.visited.push(address);
        assert(self@ =~= before.visit(wire, address, now).0);
    }

    /// Sends the request to several addresses, each unless it was sent there before.
    pub fn visit_all(&mut self, socket: &mut KrpcSocket, addresses: &Vec<SocketAddr>, now: u64)
        ensures
            (final(self)@, final(socket)@) == old(self)@.visit_all(
                old(socket)@,
                addresses@,
                now,
            ),
    {
        let ghost before = self@;
        let ghost wire = socket@;
        let mut i: usize = 0;
        while i < addresses.len()
            invariant
                i <= addresses.len(),
                (self@, socket@) == before.visit_all(wire, addresses@.take(i as int), now),
            decreases addresses.len() - i,
        {
            proof {
                let next = addresses@.take(i as int + 1);
                assert(next.drop_last() =~= addresses@.take(i as int));
                assert(next.last() == addresses@[i as int]);
            }
            self.visit(socket, addresses[i], now);
            i = i + 1;
        }
        assert(addresses@.take(addresses@.len() as int) =~= addresses@);
    }

    /// Visits the nearest of the nodes to visit.
    fn visit_closest(&mut self, socket: &mut KrpcSocket, now: u64)
        ensures
            (final(self)@, final(socket)@) == old(self)@.visit_closest(old(socket)@, now),
    {
        let closest = self.candidates.closest(&self.target);
        let mut to_visit: Vec<SocketAddr> = Vec::new();
        let mut i: usize = 0;
        while i < closest.len()
            invariant
                i <= closest.len(),
                to_visit@ == addresses(node_views(closest@.take(i as int))),
            decreases closest.len() - i,
        {
            to_visit.push(closest[i].address);
            i = i + 1;
            assert(to_visit@ =~= addresses(node_views(closest@.take(i as int))));
        }
        assert(closest@.take(closest@.len() as int) =~= closest@);
        self.visit_all(socket, &to_visit, now);
    }

    /// Passes on an immutable value that a node answered with where it is the one that the target
    /// stands for, and notes it otherwise.
    pub fn settle_immutable(
        &mut self,
        from: Node,
        value: Bytes,
        valid: bool,
        events: &mut Vec<Event>,
    )
        ensures
            ({
                let (q, told) = old(self)@.settle_immutable(from@, content(value), valid);
                &&& final(self)@ == q
                &&& event_views(final(events)@) == event_views(old(events)@) + told
            }),
    {
        if valid {
            self.response(
                ResponseValue::Immutable(GetImmutableResponse { from, value }),
                events,
            );
        } else {
            let target = self.target;
            let ghost before = event_views(events@);
            push_event(events, Event::InvalidImmutable { target, value });
            assert(event_views(events@) =~= before + seq![
                EventView::InvalidImmutable { target, value: content(value) },
            ]);
        }
    }

    /// Passes on a mutable item that a node answered with where its signature holds, and notes what
    /// the node answered with otherwise.
    pub fn settle_mutable(
        &mut self,
        from: Node,
        value: Bytes,
        seq: i64,
        signature: Vec<u8>,
        salt: Option<Bytes>,
        item: Result<MutableItem, InvalidItem>,
        events: &mut Vec<Event>,
    )
        ensures
            ({
                let item_view = match item {
                    Ok(item) => Some(item@),
                    Err(_) => None,
                };
                let (q, told) = old(self)@.settle_mutable(
                    from@,
                    content(value),
                    seq,
                    signature@,
                    option_content(salt),
                    item_view,
                );
                &&& final(self)@ == q
                &&& event_views(final(events)@) == event_views(old(events)@) + told
            }),
    {
        match item {
            Ok(item) => {
                self.response(ResponseValue::Mutable(GetMutableResponse { from, item }), events);
            },
            Err(_) => {
                let target = self.target;
                let ghost before = event_views(events@);
                let event = Event::InvalidMutable { target, value, seq, signature, salt };
                let ghost said = event@;
                push_event(events, event);
                assert(event_views(events@) =~= before + seq![said]);
            },
        }
    }

    /// Whether the answer to a transaction is one that the query waits for; it then waits for it
    /// no longer.
    pub fn remove_inflight_request(&mut self, transaction_id: u16) -> (r: bool)
        ensures
            r == old(self)@.expects(transaction_id),
            final(self)@ == old(self)@.answered(transaction_id),
    {
        let ghost before = self@;
        let index: usize = position(&self.inflight_requests, transaction_id);
        if index < self.inflight_requests.len() {
            self.inflight_requests.remove(index);
            assert(self@ =~= before.answered(transaction_id));
            true
        } else {
            false
        }
    }

    /// Whether the query waits for no more answers.
    pub fn is_done(&self) -> (r: bool)
        ensures
            r == self@.is_done(),
    {
        self.inflight_requests.len() == 0
    }

    /// Makes a step of the walk, as [`QueryView::tick`] says.
    pub fn tick(&mut self, socket: &mut KrpcSocket, now: u64, events: &mut Vec<Event>)
        ensures
            ({
                let (q, s, told) = old(self)@.tick(old(socket)@, now);
                &&& final(self)@ == q
                &&& final(socket)@ == s
                &&& event_views(final(events)@) == event_views(old(events)@) + told
            }),
    {
        self.visit_closest(socket, now);
        let ghost walked = self@;
        self.inflight_requests = still_awaited(&self.inflight_requests, socket);
        assert(self@ =~= (QueryView {
            inflight: walked.inflight.filter(awaited_by(socket@)),
            ..walked
        }));
        let ghost told = event_views(events@);
        if self.is_done() {
            self.announce_done(events);
        } else {
            assert(event_views(events@) =~= told + Seq::<EventView>::empty());
        }
    }

    /// Tells every receiver that the query is over.
    fn announce_done(&self, events: &mut Vec<Event>)
        ensures
            event_views(final(events)@) == event_views(old(events)@) + self@.done_events(),
    {
        let ghost told = event_views(events@);
        let ghost message = ResponseMessageView::Done {
            visited: self@.visited.len(),
            closest_nodes: self@.closest(),
        };
        let mut i: usize = 0;
        assert(event_views(events@) =~= told + broadcast_to(self@.senders.take(0), message));
        while i < self.senders.len()
            invariant
                i <= self.senders.len(),
                message == (ResponseMessageView::Done {
                    visited: self@.visited.len(),
                    closest_nodes: self@.closest(),
                }),
                event_views(events@) == told + broadcast_to(self@.senders.take(i as int), message),
            decreases self.senders.len() - i,
        {
            let done = ResponseDone { visited: self.visited.len(), closest_nodes: self.closest() };
            push_event(
                events,
                Event::Response {
                    to: self.senders[i],
                    message: ResponseMessage::ResponseDone(done),
                },
            );
            i = i + 1;
            assert(event_views(events@) =~= told + broadcast_to(
                self@.senders.take(i as int),
                message,
            ));
        }
        assert(self@.senders.take(self@.senders.len() as int) =~= self@.senders);
    }
}

/// Storing something at nodes near its target.
#[derive(Debug)]
pub struct StoreQuery {
    target: Id,
    sender: ResponseSender,
    inflight_requests: Vec<u16>,
    /// The nodes that stored it.
    stored_at: Vec<Id>,
    /// The nodes that were asked to.
    closest_nodes: Vec<Node>,
}

/// What a [`StoreQuery`] holds.
#[verifier::ext_equal]
pub struct StoreQueryView {
    pub target: Id,
    pub sender: ResponseSender,
    pub inflight: Seq<u16>,
    pub stored_at: Seq<Id>,
    pub closest_nodes: Seq<NodeView>,
}

impl View for StoreQuery {
    type V = StoreQueryView;

    closed spec fn view(&self) -> StoreQueryView {
        StoreQueryView {
            target: self.target,
            sender: self.sender,
            inflight: self.inflight_requests@,
            stored_at: self.stored_at@,
            closest_nodes: node_views(self.closest_nodes@),
        }
    }
}

/// What a list of store queries holds.
pub open spec fn store_query_views(queries: Seq<StoreQuery>) -> Seq<StoreQueryView> {
    queries.map_values(|q: StoreQuery| q@)
}

impl StoreQueryView {
    /// A store query that has asked nobody yet.
    pub open spec fn fresh(target: Id, sender: ResponseSender) -> StoreQueryView {
        StoreQueryView {
            target,
            sender,
            inflight: Seq::empty(),
            stored_at: Seq::empty(),
            closest_nodes: Seq::empty(),
        }
    }

    /// Asking a node to store it.
    pub open spec fn request(
        self,
        socket: SocketView,
        node: NodeView,
        request: RequestView,
        now: u64,
    ) -> (StoreQueryView, SocketView) {
        (
            StoreQueryView {
                inflight: self.inflight.push(socket.next_tid),
                closest_nodes: self.closest_nodes.push(node),
                ..self
            },
            socket.request(node.address, request, now),
        )
    }

    /// Whether the store query waits for the answer to a transaction.
    pub open spec fn expects(self, tid: u16) -> bool {
        first_index(self.inflight, is_value(tid)) < self.inflight.len()
    }

    /// The store query after the answer to a transaction came.
    pub open spec fn answered(self, tid: u16) -> StoreQueryView {
        let index = first_index(self.inflight, is_value(tid));
        if index < self.inflight.len() {
            StoreQueryView { inflight: self.inflight.remove(index), ..self }
        } else {
            self
        }
    }

    /// The store query with one more node that stored it.
    pub open spec fn success(self, node: Id) -> StoreQueryView {
        StoreQueryView { stored_at: self.stored_at.push(node), ..self }
    }

    /// Whether the store query waits for no more answers.
    pub open spec fn is_done(self) -> bool {
        self.inflight.len() == 0
    }

    /// The last word to the receiver.
    pub open spec fn stored_event(self) -> EventView {
        EventView::Response {
            to: self.sender,
            message: ResponseMessageView::Stored {
                target: self.target,
                stored_at: self.stored_at,
                closest_nodes: self.closest_nodes,
            },
        }
    }

    /// A step: the requests that the socket no longer awaits are given up, and where none is left
    /// the receiver hears which nodes stored it.
    pub open spec fn tick(self, socket: SocketView) -> (StoreQueryView, Seq<EventView>) {
        let after = StoreQueryView { inflight: self.inflight.filter(awaited_by(socket)), ..self };
        (
            after,
            if after.is_done() {
                seq![after.stored_event()]
            } else {
                Seq::empty()
            },
        )
    }
}

impl StoreQuery {
    /// A store query that has asked nobody yet.
    pub fn new(target: Id, sender: ResponseSender) -> (r: StoreQuery)
        ensures
            r@ == StoreQueryView::fresh(target, sender),
    {
        let r = StoreQuery {
            target,
            sender,
            inflight_requests: Vec::new(),
            stored_at: Vec::new(),
            closest_nodes: Vec::new(),
        };
        assert(r@ =~= StoreQueryView::fresh(target, sender));
        r
    }

    /// What is stored under.
    pub fn target(&self) -> (r: &Id)
        ensures
            *r == self@.target,
    {
        &self.target
    }

    /// Asks a node to store it.
    pub fn request(
        &mut self,
        node: Node,
        request: RequestSpecific,
        socket: &mut KrpcSocket,
        now: u64,
    )
        ensures
            (final(self)@, final(socket)@) == old(self)@.request(
                old(socket)@,
                node@,
                request@,
                now,
            ),
    {
        let ghost before = self@;
        let ghost wire = socket@;
        let tid: u16 = socket.request(node.address, request, now);
        self.inflight_requests.push(tid);
        self.closest_nodes.push(node);
        assert(self@ =~= before.request(wire, node@, request@, now).0);
    }

    /// Whether the answer to a transaction is one that the store query waits for; it then waits
    /// for it no longer.
    pub fn remove_inflight_request(&mut self, transaction_id: u16) -> (r: bool)
        ensures
            r == old(self)@.expects(transaction_id),
            final(self)@ == old(self)@.answered(transaction_id),
    {
        let ghost before = self@;
        let index: usize = position(&self.inflight_requests, transaction_id);
        if index < self.inflight_requests.len() {
            self.inflight_requests.remove(index);
            assert(self@ =~= before.answered(transaction_id));
            true
        } else {
            false
        }
    }

    /// Marks the storage at a node as a success.
    pub fn success(&mut self, node: Id)
        ensures
            final(self)@ == old(self)@.success(node),
    {
        let ghost before = self@;
        self.stored_at.push(node);
        assert(self@ =~= before.success(node));
    }

    /// Whether the store query waits for no more answers.
    pub fn is_done(&self) -> (r: bool)
        ensures
            r == self@.is_done(),
    {
        self.inflight_requests.len() == 0
    }

    /// Makes a step, as [`StoreQueryView::tick`] says.
    pub fn tick(&mut self, socket: &KrpcSocket, events: &mut Vec<Event>)
        ensures
            ({
                let (q, told) = old(self)@.tick(socket@);
                &&& final(self)@ == q
                &&& event_views(final(events)@) == event_views(old(events)@) + told
            }),
    {
        let ghost before = self@;
        let ghost told = event_views(events@);
        self.inflight_requests = still_awaited(&self.inflight_requests, socket);
        assert(self@ =~= (StoreQueryView {
            inflight: before.inflight.filter(awaited_by(socket@)),
            ..before
        }));
        if self.is_done() {
            let mut stored_at: Vec<Id> = Vec::new();
            let mut i: usize = 0;
            while i < self.stored_at.len()
                invariant
                    i <= self.stored_at.len(),
                    stored_at@ == self.stored_at@.take(i as int),
                decreases self.stored_at.len() - i,
            {
                stored_at.push(self.stored_at[i]);
                i = i + 1;
                assert(stored_at@ =~= self.stored_at@.take(i as int));
            }
            assert(stored_at@ =~= self.stored_at@);
            let metadata = StoreQueryMetdata {
                target: self.target,
                stored_at,
                closest_nodes: clone_nodes(&self.closest_nodes),
            };
            push_event(
                events,
                Event::Response {
                    to: self.sender,
                    message: ResponseMessage::StoreQueryMetdata(metadata),
                },
            );
            assert(event_views(events@) =~= told + seq![self@.stored_event()]);
        } else {
            assert(event_views(events@) =~= told + Seq::<EventView>::empty());
        }
    }
}

} // verus!
