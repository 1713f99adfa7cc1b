//! The messages that nodes exchange.

use crate::address::SocketAddr;
use crate::buffer::{option_content, share_option};
use crate::id::Id;
use crate::item::MAX_LENGTH;
use crate::node::{clone_nodes, clone_option_bytes, node_views, option_bytes, Node, NodeView};
use bytes::Bytes;
use vstd::prelude::*;

verus! {

/// A message with its transaction.
#[derive(Debug)]
pub struct Message {
    /// Ties a response to its request.
    pub transaction_id: u16,
    /// Whether the author answers no requests and belongs in no routing table.
    pub read_only: bool,
    pub message_type: MessageType,
}

/// What a message is.
#[derive(Debug)]
pub enum MessageType {
    Request(RequestSpecific),
    Response(ResponseSpecific),
    Error(ErrorSpecific),
}

/// An error response.
#[derive(Debug)]
pub struct ErrorSpecific {
    pub code: i32,
    pub description: String,
}

/// A request.
#[derive(Debug)]
pub enum RequestSpecific {
    Ping(PingRequestArguments),
    FindNode(FindNodeRequestArguments),
    GetPeers(GetPeersRequestArguments),
    GetValue(GetValueRequestArguments),
    AnnouncePeer(AnnouncePeerRequestArguments),
    PutImmutable(PutImmutableRequestArguments),
    PutMutable(PutMutableRequestArguments),
}

/// Are you there?
#[derive(Clone, Copy, Debug)]
pub struct PingRequestArguments {
    pub requester_id: Id,
}

/// Which nodes do you know near `target`?
#[derive(Clone, Copy, Debug)]
pub struct FindNodeRequestArguments {
    pub requester_id: Id,
    pub target: Id,
}

/// Which peers do you know for `info_hash`?
#[derive(Clone, Copy, Debug)]
pub struct GetPeersRequestArguments {
    pub requester_id: Id,
    pub info_hash: Id,
}

/// Which value do you store under `target`?
#[derive(Debug)]
pub struct GetValueRequestArguments {
    pub requester_id: Id,
    pub target: Id,
    pub seq: Option<i64>,
    pub salt: Option<Bytes>,
}

/// The author is a peer for `info_hash`.
#[derive(Debug)]
pub struct AnnouncePeerRequestArguments {
    pub requester_id: Id,
    pub info_hash: Id,
    pub port: u16,
    pub implied_port: Option<bool>,
    pub token: Vec<u8>,
}

/// Store an immutable value.
#[derive(Debug)]
pub struct PutImmutableRequestArguments {
    pub requester_id: Id,
    pub target: Id,
    pub token: Vec<u8>,
    pub v: Vec<u8>,
}

/// Store a mutable item.
#[derive(Debug)]
pub struct PutMutableRequestArguments {
    pub requester_id: Id,
    pub target: Id,
    pub token: Vec<u8>,
    pub v: Vec<u8>,
    pub k: Vec<u8>,
    pub seq: i64,
    pub sig: Vec<u8>,
    pub salt: Option<Vec<u8>>,
    pub cas: Option<i64>,
}

/// A response.
#[derive(Debug)]
pub enum ResponseSpecific {
    Ping(PingResponseArguments),
    FindNode(FindNodeResponseArguments),
    GetPeers(GetPeersResponseArguments),
    GetImmutable(GetImmutableResponseArguments),
    GetMutable(GetMutableResponseArguments),
    NoValues(NoValuesResponseArguments),
    NoMoreRecentValue(NoMoreRecentValueResponseArguments),
}

/// The author is there, or has stored what it was sent.
#[derive(Clone, Copy, Debug)]
pub struct PingResponseArguments {
    pub responder_id: Id,
}

/// Nodes near the target.
#[derive(Debug)]
pub struct FindNodeResponseArguments {
    pub responder_id: Id,
    pub nodes: Vec<Node>,
}

/// Peers for the info hash.
#[derive(Debug)]
pub struct GetPeersResponseArguments {
    pub responder_id: Id,
    pub token: Vec<u8>,
    pub values: Vec<SocketAddr>,
    pub nodes: Option<Vec<Node>>,
}

/// The immutable value under the target.
#[derive(Debug)]
pub struct GetImmutableResponseArguments {
    pub responder_id: Id,
    pub token: Vec<u8>,
    pub nodes: Option<Vec<Node>>,
    pub v: Vec<u8>,
}

/// The mutable item under the target.
#[derive(Debug)]
pub struct GetMutableResponseArguments {
    pub responder_id: Id,
    pub token: Vec<u8>,
    pub nodes: Option<Vec<Node>>,
    pub v: Vec<u8>,
    pub k: Vec<u8>,
    pub seq: i64,
    pub sig: Vec<u8>,
}

/// Nothing is stored under the target.
#[derive(Debug)]
pub struct NoValuesResponseArguments {
    pub responder_id: Id,
    pub token: Vec<u8>,
    pub nodes: Option<Vec<Node>>,
}

/// No item with a higher sequence number than the one asked for is stored under the target.
#[derive(Debug)]
pub struct NoMoreRecentValueResponseArguments {
    pub responder_id: Id,
    pub token: Vec<u8>,
    pub nodes: Option<Vec<Node>>,
    pub seq: i64,
}

/// What a [`RequestSpecific`] says.
#[verifier::ext_equal]
pub enum RequestView {
    Ping { requester_id: Id },
    FindNode { requester_id: Id, target: Id },
    GetPeers { requester_id: Id, info_hash: Id },
    GetValue { requester_id: Id, target: Id, seq: Option<i64>, salt: Option<Seq<u8>> },
    AnnouncePeer {
        requester_id: Id,
        info_hash: Id,
        port: u16,
        implied_port: Option<bool>,
        token: Seq<u8>,
    },
    PutImmutable { requester_id: Id, target: Id, token: Seq<u8>, v: Seq<u8> },
    PutMutable {
        requester_id: Id,
        target: Id,
        token: Seq<u8>,
        v: Seq<u8>,
        k: Seq<u8>,
        seq: i64,
        sig: Seq<u8>,
        salt: Option<Seq<u8>>,
        cas: Option<i64>,
    },
}

/// What a [`ResponseSpecific`] says.
#[verifier::ext_equal]
pub enum ResponseView {
    Ping { responder_id: Id },
    FindNode { responder_id: Id, nodes: Seq<NodeView> },
    GetPeers {
        responder_id: Id,
        token: Seq<u8>,
        values: Seq<SocketAddr>,
        nodes: Option<Seq<NodeView>>,
    },
    GetImmutable { responder_id: Id, token: Seq<u8>, nodes: Option<Seq<NodeView>>, v: Seq<u8> },
    GetMutable {
        responder_id: Id,
        token: Seq<u8>,
        nodes: Option<Seq<NodeView>>,
        v: Seq<u8>,
        k: Seq<u8>,
        seq: i64,
        sig: Seq<u8>,
    },
    NoValues { responder_id: Id, token: Seq<u8>, nodes: Option<Seq<NodeView>> },
    NoMoreRecentValue {
        responder_id: Id,
        token: Seq<u8>,
        nodes: Option<Seq<NodeView>>,
        seq: i64,
    },
}

/// What an [`ErrorSpecific`] says.
#[verifier::ext_equal]
pub struct ErrorView {
    pub code: i32,
    pub description: Seq<char>,
}

/// What a [`MessageType`] says.
#[verifier::ext_equal]
pub enum MessageTypeView {
    Request(RequestView),
    Response(ResponseView),
    Error(ErrorView),
}

/// What a [`Message`] says.
#[verifier::ext_equal]
pub struct MessageView {
    pub transaction_id: u16,
    pub read_only: bool,
    pub message_type: MessageTypeView,
}

/// What the nodes of an optional list say.
pub open spec fn option_nodes(nodes: Option<Vec<Node>>) -> Option<Seq<NodeView>> {
    match nodes {
        Some(n) => Some(node_views(n@)),
        None => None,
    }
}

impl View for RequestSpecific {
    type V = RequestView;

    open spec fn view(&self) -> RequestView {
        match *self {
            RequestSpecific::Ping(a) => RequestView::Ping { requester_id: a.requester_id },
            RequestSpecific::FindNode(a) => RequestView::FindNode {
                requester_id: a.requester_id,
                target: a.target,
            },
            RequestSpecific::GetPeers(a) => RequestView::GetPeers {
                requester_id: a.requester_id,
                info_hash: a.info_hash,
            },
            RequestSpecific::GetValue(a) => RequestView::GetValue {
                requester_id: a.requester_id,
                target: a.target,
                seq: a.seq,
                salt: option_content(a.salt),
            },
            RequestSpecific::AnnouncePeer(a) => RequestView::AnnouncePeer {
                requester_id: a.requester_id,
                info_hash: a.info_hash,
                port: a.port,
                implied_port: a.implied_port,
                token: a.token@,
            },
            RequestSpecific::PutImmutable(a) => RequestView::PutImmutable {
                requester_id: a.requester_id,
                target: a.target,
                token: a.token@,
                v: a.v@,
            },
            RequestSpecific::PutMutable(a) => RequestView::PutMutable {
                requester_id: a.requester_id,
                target: a.target,
                token: a.token@,
                v: a.v@,
                k: a.k@,
                seq: a.seq,
                sig: a.sig@,
                salt: option_bytes(a.salt),
                cas: a.cas,
            },
        }
    }
}

impl View for ResponseSpecific {
    type V = ResponseView;

    open spec fn view(&self) -> ResponseView {
        match *self {
            ResponseSpecific::Ping(a) => ResponseView::Ping { responder_id: a.responder_id },
            ResponseSpecific::FindNode(a) => ResponseView::FindNode {
                responder_id: a.responder_id,
                nodes: node_views(a.nodes@),
            },
            ResponseSpecific::GetPeers(a) => ResponseView::GetPeers {
                responder_id: a.responder_id,
                token: a.token@,
                values: a.values@,
                nodes: option_nodes(a.nodes),
            },
            ResponseSpecific::GetImmutable(a) => ResponseView::GetImmutable {
                responder_id: a.responder_id,
                token: a.token@,
                nodes: option_nodes(a.nodes),
                v: a.v@,
            },
            ResponseSpecific::GetMutable(a) => ResponseView::GetMutable {
                responder_id: a.responder_id,
                token: a.token@,
                nodes: option_nodes(a.nodes),
                v: a.v@,
                k: a.k@,
                seq: a.seq,
                sig: a.sig@,
            },
            ResponseSpecific::NoValues(a) => ResponseView::NoValues {
                responder_id: a.responder_id,
                token: a.token@,
                nodes: option_nodes(a.nodes),
            },
            ResponseSpecific::NoMoreRecentValue(a) => ResponseView::NoMoreRecentValue {
                responder_id: a.responder_id,
                token: a.token@,
                nodes: option_nodes(a.nodes),
                seq: a.seq,
            },
        }
    }
}

impl View for ErrorSpecific {
    type V = ErrorView;

    open spec fn view(&self) -> ErrorView {
        ErrorView { code: self.code, description: self.description@ }
    }
}

impl View for MessageType {
    type V = MessageTypeView;

    open spec fn view(&self) -> MessageTypeView {
        match *self {
            MessageType::Request(r) => MessageTypeView::Request(r@),
            MessageType::Response(r) => MessageTypeView::Response(r@),
            MessageType::Error(e) => MessageTypeView::Error(e@),
        }
    }
}

impl View for Message {
    type V = MessageView;

    open spec fn view(&self) -> MessageView {
        MessageView {
            transaction_id: self.transaction_id,
            read_only: self.read_only,
            message_type: self.message_type@,
        }
    }
}

impl RequestView {
    /// Who sent the request.
    pub open spec fn requester_id(self) -> Id {
        match self {
            RequestView::Ping { requester_id } => requester_id,
            RequestView::FindNode { requester_id, .. } => requester_id,
            RequestView::GetPeers { requester_id, .. } => requester_id,
            RequestView::GetValue { requester_id, .. } => requester_id,
            RequestView::AnnouncePeer { requester_id, .. } => requester_id,
            RequestView::PutImmutable { requester_id, .. } => requester_id,
            RequestView::PutMutable { requester_id, .. } => requester_id,
        }
    }
}

impl ResponseView {
    /// Who sent the response.
    pub open spec fn responder_id(self) -> Id {
        match self {
            ResponseView::Ping { responder_id } => responder_id,
            ResponseView::FindNode { responder_id, .. } => responder_id,
            ResponseView::GetPeers { responder_id, .. } => responder_id,
            ResponseView::GetImmutable { responder_id, .. } => responder_id,
            ResponseView::GetMutable { responder_id, .. } => responder_id,
            ResponseView::NoValues { responder_id, .. } => responder_id,
            ResponseView::NoMoreRecentValue { responder_id, .. } => responder_id,
        }
    }

    /// The nodes nearer to the target that the response names.
    pub open spec fn closer_nodes(self) -> Option<Seq<NodeView>> {
        match self {
            ResponseView::Ping { .. } => None,
            ResponseView::FindNode { nodes, .. } => Some(nodes),
            ResponseView::GetPeers { nodes, .. } => nodes,
            ResponseView::GetImmutable { nodes, .. } => nodes,
            ResponseView::GetMutable { nodes, .. } => nodes,
            ResponseView::NoValues { nodes, .. } => nodes,
            ResponseView::NoMoreRecentValue { nodes, .. } => nodes,
        }
    }

    /// The token that the response hands out.
    pub open spec fn token(self) -> Option<Seq<u8>> {
        match self {
            ResponseView::Ping { .. } => None,
            ResponseView::FindNode { .. } => None,
            ResponseView::GetPeers { token, .. } => Some(token),
            ResponseView::GetImmutable { token, .. } => Some(token),
            ResponseView::GetMutable { token, .. } => Some(token),
            ResponseView::NoValues { token, .. } => Some(token),
            ResponseView::NoMoreRecentValue { token, .. } => Some(token),
        }
    }
}

impl MessageView {
    /// Who sent the message, which an error does not say.
    pub open spec fn author_id(self) -> Option<Id> {
        match self.message_type {
            MessageTypeView::Request(r) => Some(r.requester_id()),
            MessageTypeView::Response(r) => Some(r.responder_id()),
            MessageTypeView::Error(_) => None,
        }
    }

    /// The nodes nearer to the target that the message names.
    pub open spec fn closer_nodes(self) -> Option<Seq<NodeView>> {
        match self.message_type {
            MessageTypeView::Response(r) => r.closer_nodes(),
            _ => None,
        }
    }

    /// The author and the token that the message hands out.
    pub open spec fn token(self) -> Option<(Id, Seq<u8>)> {
        match self.message_type {
            MessageTypeView::Response(r) => match r.token() {
                Some(token) => Some((r.responder_id(), token)),
                None => None,
            },
            _ => None,
        }
    }

    /// Whether an immutable value that the message brings is of a length that can be hashed.
    pub open spec fn hashable(self) -> bool {
        self.message_type matches MessageTypeView::Response(ResponseView::GetImmutable { v, .. })
            ==> v.len() <= MAX_LENGTH
    }
}

/// A copy of a byte string.
pub(crate) fn clone_bytes(bytes: &Vec<u8>) -> (r: Vec<u8>)
    ensures
        r@ == bytes@,
{
    let copy = bytes.clone();
    assert(copy@ =~= bytes@);
    copy
}

/// A copy of an optional list of nodes.
fn clone_option_nodes(nodes: &Option<Vec<Node>>) -> (r: Option<Vec<Node>>)
    ensures
        option_nodes(r) == option_nodes(*nodes),
{
    match nodes {
        Some(n) => Some(clone_nodes(n)),
        None => None,
    }
}

impl Clone for RequestSpecific {
    fn clone(&self) -> (r: RequestSpecific)
        ensures
            r@ == self@,
    {
        match self {
            RequestSpecific::Ping(a) => RequestSpecific::Ping(*a),
            RequestSpecific::FindNode(a) => RequestSpecific::FindNode(*a),
            RequestSpecific::GetPeers(a) => RequestSpecific::GetPeers(*a),
            RequestSpecific::GetValue(a) => RequestSpecific::GetValue(
                GetValueRequestArguments {
                    requester_id: a.requester_id,
                    target: a.target,
                    seq: a.seq,
                    salt: share_option(&a.salt),
                },
            ),
            RequestSpecific::AnnouncePeer(a) => RequestSpecific::AnnouncePeer(
                AnnouncePeerRequestArguments {
                    requester_id: a.requester_id,
                    info_hash: a.info_hash,
                    port: a.port,
                    implied_port: a.implied_port,
                    token: clone_bytes(&a.token),
                },
            ),
            RequestSpecific::PutImmutable(a) => RequestSpecific::PutImmutable(
                PutImmutableRequestArguments {
                    requester_id: a.requester_id,
                    target: a.target,
                    token: clone_bytes(&a.token),
                    v: clone_bytes(&a.v),
                },
            ),
            RequestSpecific::PutMutable(a) => RequestSpecific::PutMutable(
                PutMutableRequestArguments {
                    requester_id: a.requester_id,
                    target: a.target,
                    token: clone_bytes(&a.token),
                    v: clone_bytes(&a.v),
                    k: clone_bytes(&a.k),
                    seq: a.seq,
                    sig: clone_bytes(&a.sig),
                    salt: clone_option_bytes(&a.salt),
                    cas: a.cas,
                },
            ),
        }
    }
}

impl Message {
    /// Who sent the message, which an error does not say.
    pub fn get_author_id(&self) -> (r: Option<Id>)
        ensures
            r == self@.author_id(),
    {
        match &self.message_type {
            MessageType::Request(request) => Some(
                match request {
                    RequestSpecific::Ping(a) => a.requester_id,
                    RequestSpecific::FindNode(a) => a.requester_id,
                    RequestSpecific::GetPeers(a) => a.requester_id,
                    RequestSpecific::GetValue(a) => a.requester_id,
                    RequestSpecific::AnnouncePeer(a) => a.requester_id,
                    RequestSpecific::PutImmutable(a) => a.requester_id,
                    RequestSpecific::PutMutable(a) => a.requester_id,
                },
            ),
            MessageType::Response(response) => Some(
                match response {
                    ResponseSpecific::Ping(a) => a.responder_id,
                    ResponseSpecific::FindNode(a) => a.responder_id,
                    ResponseSpecific::GetPeers(a) => a.responder_id,
                    ResponseSpecific::GetImmutable(a) => a.responder_id,
                    ResponseSpecific::GetMutable(a) => a.responder_id,
                    ResponseSpecific::NoValues(a) => a.responder_id,
                    ResponseSpecific::NoMoreRecentValue(a) => a.responder_id,
                },
            ),
            MessageType::Error(_) => None,
        }
    }

    /// The nodes nearer to the target that the message names.
    pub fn get_closer_nodes(&self) -> (r: Option<Vec<Node>>)
        ensures
            option_nodes(r) == self@.closer_nodes(),
    {
        match &self.message_type {
            MessageType::Response(response) => match response {
                ResponseSpecific::Ping(_) => None,
                ResponseSpecific::FindNode(a) => Some(clone_nodes(&a.nodes)),
                ResponseSpecific::GetPeers(a) => clone_option_nodes(&a.nodes),
                ResponseSpecific::GetImmutable(a) => clone_option_nodes(&a.nodes),
                ResponseSpecific::GetMutable(a) => clone_option_nodes(&a.nodes),
                ResponseSpecific::NoValues(a) => clone_option_nodes(&a.nodes),
                ResponseSpecific::NoMoreRecentValue(a) => clone_option_nodes(&a.nodes),
            },
            _ => None,
        }
    }

    /// The author and the token that the message hands out.
    pub fn get_token(&self) -> (r: Option<(Id, Vec<u8>)>)
        ensures
            match r {
                Some(t) => self@.token() == Some((t.0, t.1@)),
                None => self@.token() is None,
            },
    {
        match &self.message_type {
            MessageType::Response(response) => match response {
                ResponseSpecific::Ping(_) => None,
                ResponseSpecific::FindNode(_) => None,
                ResponseSpecific::GetPeers(a) => Some((a.responder_id, clone_bytes(&a.token))),
                ResponseSpecific::GetImmutable(a) => Some((a.responder_id, clone_bytes(&a.token))),
                ResponseSpecific::GetMutable(a) => Some((a.responder_id, clone_bytes(&a.token))),
                ResponseSpecific::NoValues(a) => Some((a.responder_id, clone_bytes(&a.token))),
                ResponseSpecific::NoMoreRecentValue(a) => Some(
                    (a.responder_id, clone_bytes(&a.token)),
                ),
            },
            _ => None,
        }
    }
}

} // verus!
