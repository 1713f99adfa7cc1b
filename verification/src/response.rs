//! What a node tells its surroundings: replies to those who asked, requests for a custom handler,
//! and what it noticed on the way.

use crate::address::SocketAddr;
use crate::buffer::{content, option_content, share};
use crate::id::Id;
use crate::item::{ItemView, MutableItem};
use crate::messages::{ErrorSpecific, ErrorView, RequestSpecific, RequestView};
use crate::node::{node_views, Node, NodeView};
use bytes::Bytes;
use vstd::prelude::*;

verus! {

/// The channel on which the replies to a query go out.
#[derive(Clone, Copy, Debug, PartialEq, Eq, Structural)]
pub struct ResponseSender {
    pub channel: u64,
}

/// The channel on which requests go out to a custom handler.
#[derive(Clone, Copy, Debug, PartialEq, Eq, Structural)]
pub struct RequestSender {
    pub channel: u64,
}

/// A peer for an info hash, and the node that knows it.
#[derive(Debug)]
pub struct GetPeerResponse {
    pub from: Node,
    pub peer: SocketAddr,
}

/// An immutable value, and the node that stores it.
#[derive(Debug)]
pub struct GetImmutableResponse {
    pub from: Node,
    pub value: Bytes,
}

/// A mutable item, and the node that stores it.
#[derive(Debug)]
pub struct GetMutableResponse {
    pub from: Node,
    pub item: MutableItem,
}

/// Something that a query found.
#[derive(Debug)]
pub enum ResponseValue {
    Peer(GetPeerResponse),
    Immutable(GetImmutableResponse),
    Mutable(GetMutableResponse),
}

/// A query is over.
#[derive(Debug)]
pub struct ResponseDone {
    /// How many nodes the query visited.
    pub visited: usize,
    /// The nodes nearest to the target that handed out a token.
    pub closest_nodes: Vec<Node>,
}

/// A store query is over.
#[derive(Debug)]
pub struct StoreQueryMetdata {
    pub target: Id,
    /// The nodes that stored the item.
    pub stored_at: Vec<Id>,
    /// The nodes that were asked to.
    pub closest_nodes: Vec<Node>,
}

/// A reply to whoever started a query.
#[derive(Debug)]
pub enum ResponseMessage {
    ResponseValue(ResponseValue),
    ResponseDone(ResponseDone),
    StoreQueryMetdata(StoreQueryMetdata),
}

/// Something that a node tells its surroundings.
#[derive(Debug)]
pub enum Event {
    /// A reply for the receiver behind `to`.
    Response { to: ResponseSender, message: ResponseMessage },
    /// A request for the custom handler behind `to`.
    Request {
        to: RequestSender,
        from: SocketAddr,
        transaction_id: u16,
        request: RequestSpecific,
    },
    /// The look-up of the own identifier ended, and the routing table is still empty.
    BootstrapFailed,
    /// The look-up of the own identifier ended, and this many nodes are in the routing table.
    Bootstrapped { table_size: usize },
    /// A response brought a value that is not the one its query asked for.
    InvalidImmutable { target: Id, value: Bytes },
    /// A response brought a mutable item with a wrong signature.
    InvalidMutable {
        target: Id,
        value: Bytes,
        seq: i64,
        signature: Vec<u8>,
        /// The salt that the query asked for.
        salt: Option<Bytes>,
    },
    /// A request was answered with an error.
    ErrorResponse { error: ErrorSpecific },
}

/// What a [`ResponseValue`] says.
#[verifier::ext_equal]
pub enum ResponseValueView {
    Peer { from: NodeView, peer: SocketAddr },
    Immutable { from: NodeView, value: Seq<u8> },
    Mutable { from: NodeView, item: ItemView },
}

/// What a [`ResponseMessage`] says.
#[verifier::ext_equal]
pub enum ResponseMessageView {
    Value(ResponseValueView),
    Done { visited: nat, closest_nodes: Seq<NodeView> },
    Stored { target: Id, stored_at: Seq<Id>, closest_nodes: Seq<NodeView> },
}

/// What an [`Event`] says.
#[verifier::ext_equal]
pub enum EventView {
    Response { to: ResponseSender, message: ResponseMessageView },
    Request { to: RequestSender, from: SocketAddr, transaction_id: u16, request: RequestView },
    BootstrapFailed,
    Bootstrapped { table_size: nat },
    InvalidImmutable { target: Id, value: Seq<u8> },
    InvalidMutable {
        target: Id,
        value: Seq<u8>,
        seq: i64,
        signature: Seq<u8>,
        salt: Option<Seq<u8>>,
    },
    ErrorResponse { error: ErrorView },
}

impl View for ResponseValue {
    type V = ResponseValueView;

    open spec fn view(&self) -> ResponseValueView {
        match *self {
            ResponseValue::Peer(r) => ResponseValueView::Peer { from: r.from@, peer: r.peer },
            ResponseValue::Immutable(r) => ResponseValueView::Immutable {
                from: r.from@,
                value: content(r.value),
            },
            ResponseValue::Mutable(r) => ResponseValueView::Mutable {
                from: r.from@,
                item: r.item@,
            },
        }
    }
}

impl View for ResponseMessage {
    type V = ResponseMessageView;

    open spec fn view(&self) -> ResponseMessageView {
        match *self {
            ResponseMessage::ResponseValue(value) => ResponseMessageView::Value(value@),
            ResponseMessage::ResponseDone(done) => ResponseMessageView::Done {
                visited: done.visited as nat,
                closest_nodes: node_views(done.closest_nodes@),
            },
            ResponseMessage::StoreQueryMetdata(stored) => ResponseMessageView::Stored {
                target: stored.target,
                stored_at: stored.stored_at@,
                closest_nodes: node_views(stored.closest_nodes@),
            },
        }
    }
}

impl View for Event {
    type V = EventView;

    open spec fn view(&self) -> EventView {
        match *self {
            Event::Response { to, message } => EventView::Response { to, message: message@ },
            Event::Request { to, from, transaction_id, request } => EventView::Request {
                to,
                from,
                transaction_id,
                request: request@,
            },
            Event::BootstrapFailed => EventView::BootstrapFailed,
            Event::Bootstrapped { table_size } => EventView::Bootstrapped {
                table_size: table_size as nat,
            },
            Event::InvalidImmutable { target, value } => EventView::InvalidImmutable {
                target,
                value: content(value),
            },
            Event::InvalidMutable { target, value, seq, signature, salt } => {
                EventView::InvalidMutable {
                    target,
                    value: content(value),
                    seq,
                    signature: signature@,
                    salt: option_content(salt),
                }
            },
            Event::ErrorResponse { error } => EventView::ErrorResponse { error: error@ },
        }
    }
}

/// What a list of values says.
pub open spec fn value_views(values: Seq<ResponseValue>) -> Seq<ResponseValueView> {
    values.map_values(|v: ResponseValue| v@)
}

/// What a list of events says.
pub open spec fn event_views(events: Seq<Event>) -> Seq<EventView> {
    events.map_values(|e: Event| e@)
}

/// A value, on its way to a receiver.
pub open spec fn value_event(to: ResponseSender, value: ResponseValueView) -> EventView {
    EventView::Response { to, message: ResponseMessageView::Value(value) }
}

impl Clone for ResponseValue {
    fn clone(&self) -> (r: ResponseValue)
        ensures
            r@ == self@,
    {
        match self {
            ResponseValue::Peer(r) => ResponseValue::Peer(
                GetPeerResponse { from: r.from.clone(), peer: r.peer },
            ),
            ResponseValue::Immutable(r) => ResponseValue::Immutable(
                GetImmutableResponse { from: r.from.clone(), value: share(&r.value) },
            ),
            ResponseValue::Mutable(r) => ResponseValue::Mutable(
                GetMutableResponse { from: r.from.clone(), item: r.item.clone() },
            ),
        }
    }
}

/// Adds an event to a list.
pub(crate) fn push_event(events: &mut Vec<Event>, event: Event)
    ensures
        event_views(final(events)@) == event_views(old(events)@).push(event@),
{
    let ghost before = event_views(events@);
    events.push(event);
    assert(event_views(events@) =~= before.push(event@));
}

} // verus!
