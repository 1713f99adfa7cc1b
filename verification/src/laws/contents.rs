//! What messages and events say: all that their fields hold, and nothing else.

use crate::address::SocketAddr;
use crate::buffer::content;
use crate::closest::{closest_views, ClosestNodes};
use crate::id::Id;
use crate::messages::{
    Message, MessageType, MessageTypeView, RequestSpecific, RequestView, ResponseSpecific,
    ResponseView,
};
use crate::node::{node_views, Node, NodeView};
use crate::query::{query_views, store_query_views, Query, StoreQuery};
use crate::response::{
    event_views, value_views, Event, EventView, ResponseMessage, ResponseMessageView, ResponseValue,
    ResponseValueView,
};
use crate::rpc::{incoming_view, string_views};
use crate::socket::{datagram_views, Datagram};
use bytes::Bytes;
use vstd::prelude::*;

verus! {

/// A node says its identifier, its address, the token that it handed out and when it was last heard
/// of.
pub proof fn law_nodes_are_read_whole(node: Node)
    ensures
        node@.id == node.id,
        node@.address == node.address,
        node@.last_seen == node.last_seen,
        node@.token is Some <==> node.token is Some,
        node.token matches Some(token) ==> node@.token == Some(token@),
{
}

/// A node that was just heard of has its identifier, its address and no token; a token given to it
/// is all that then changes. It is stale after fifteen minutes of silence, and may be pinged after
/// ten seconds.
pub proof fn law_nodes_that_were_heard_of(
    id: Id,
    address: SocketAddr,
    now: u64,
    token: Seq<u8>,
    later: u64,
)
    ensures
        ({
            let node = NodeView::fresh(id, address, now);
            &&& node == NodeView { id, address, token: None, last_seen: now }
            &&& node.with_token(token) == NodeView {
                id,
                address,
                token: Some(token),
                last_seen: now,
            }
            &&& node.is_stale(later) <==> later > now + 900_000_000_000
            &&& node.should_ping(later) <==> later > now + 10_000_000_000
        }),
{
}

/// What arrived is the message, with all that it says, and where it came from.
pub proof fn law_what_arrives_is_read_whole(message: Message, from: SocketAddr)
    ensures
        incoming_view(Some((message, from))) == Some((message@, from)),
        incoming_view(None) is None,
{
}

/// A list says what each of its elements says, in order.
pub proof fn law_lists_are_read_whole(
    nodes: Seq<Node>,
    events: Seq<Event>,
    values: Seq<ResponseValue>,
    datagrams: Seq<Datagram>,
    queries: Seq<Query>,
    stores: Seq<StoreQuery>,
    results: Seq<ClosestNodes>,
    strings: Seq<String>,
    i: int,
)
    ensures
        node_views(nodes).len() == nodes.len(),
        0 <= i < nodes.len() ==> node_views(nodes)[i] == nodes[i]@,
        event_views(events).len() == events.len(),
        0 <= i < events.len() ==> event_views(events)[i] == events[i]@,
        value_views(values).len() == values.len(),
        0 <= i < values.len() ==> value_views(values)[i] == values[i]@,
        datagram_views(datagrams).len() == datagrams.len(),
        0 <= i < datagrams.len() ==> {
            &&& datagram_views(datagrams)[i].to == datagrams[i].to
            &&& datagram_views(datagrams)[i].message == datagrams[i].message@
        },
        query_views(queries).len() == queries.len(),
        0 <= i < queries.len() ==> query_views(queries)[i] == queries[i]@,
        store_query_views(stores).len() == stores.len(),
        0 <= i < stores.len() ==> store_query_views(stores)[i] == stores[i]@,
        closest_views(results).len() == results.len(),
        0 <= i < results.len() ==> {
            &&& closest_views(results)[i].target == results[i].target
            &&& closest_views(results)[i].found_at == results[i].found_at
            &&& closest_views(results)[i].nodes == node_views(results[i].nodes@)
        },
        string_views(strings).len() == strings.len(),
        0 <= i < strings.len() ==> string_views(strings)[i] == strings[i]@,
{
}

/// Whether an optional list says what each of its nodes says.
pub open spec fn same_nodes(said: Option<Seq<NodeView>>, nodes: Option<Vec<Node>>) -> bool {
    match (said, nodes) {
        (Some(said), Some(nodes)) => {
            &&& said.len() == nodes@.len()
            &&& forall|i: int| 0 <= i < said.len() ==> #[trigger] said[i] == nodes@[i]@
        },
        (None, None) => true,
        _ => false,
    }
}

/// Whether an optional byte string says the bytes of an optional buffer.
pub open spec fn same_buffer(said: Option<Seq<u8>>, buffer: Option<Bytes>) -> bool {
    match (said, buffer) {
        (Some(said), Some(buffer)) => said == content(buffer),
        (None, None) => true,
        _ => false,
    }
}

/// A message says its transaction, whether its author is read-only, and every field of the request,
/// the response or the error that it is.
pub proof fn law_messages_are_read_whole(message: Message)
    ensures
        message@.transaction_id == message.transaction_id,
        message@.read_only == message.read_only,
        match (message.message_type, message@.message_type) {
            (MessageType::Request(request), MessageTypeView::Request(said)) => match (
                request,
                said,
            ) {
                (
                    RequestSpecific::Ping(a),
                    RequestView::Ping { requester_id },
                ) => requester_id == a.requester_id,
                (RequestSpecific::FindNode(a), RequestView::FindNode { requester_id, target }) => {
                    &&& requester_id == a.requester_id
                    &&& target == a.target
                },
                (
                    RequestSpecific::GetPeers(a),
                    RequestView::GetPeers { requester_id, info_hash },
                ) => {
                    &&& requester_id == a.requester_id
                    &&& info_hash == a.info_hash
                },
                (
                    RequestSpecific::GetValue(a),
                    RequestView::GetValue { requester_id, target, seq, salt },
                ) => {
                    &&& requester_id == a.requester_id
                    &&& target == a.target
                    &&& seq == a.seq
                    &&& same_buffer(salt, a.salt)
                },
                (
                    RequestSpecific::AnnouncePeer(a),
                    RequestView::AnnouncePeer { requester_id, info_hash, port, implied_port, token },
                ) => {
                    &&& requester_id == a.requester_id
                    &&& info_hash == a.info_hash
                    &&& port == a.port
                    &&& implied_port == a.implied_port
                    &&& token == a.token@
                },
                (
                    RequestSpecific::PutImmutable(a),
                    RequestView::PutImmutable { requester_id, target, token, v },
                ) => {
                    &&& requester_id == a.requester_id
                    &&& target == a.target
                    &&& token == a.token@
                    &&& v == a.v@
                },
                (
                    RequestSpecific::PutMutable(a),
                    RequestView::PutMutable {
                        requester_id,
                        target,
                        token,
                        v,
                        k,
                        seq,
                        sig,
                        salt,
                        cas,
                    },
                ) => {
                    &&& requester_id == a.requester_id
                    &&& target == a.target
                    &&& token == a.token@
                    &&& v == a.v@
                    &&& k == a.k@
                    &&& seq == a.seq
                    &&& sig == a.sig@
                    &&& salt is Some <==> a.salt is Some
                    &&& a.salt matches Some(s) ==> salt == Some(s@)
                    &&& cas == a.cas
                },
                _ => false,
            },
            (MessageType::Response(response), MessageTypeView::Response(said)) => match (
                response,
                said,
            ) {
                (
                    ResponseSpecific::Ping(a),
                    ResponseView::Ping { responder_id },
                ) => responder_id == a.responder_id,
                (
                    ResponseSpecific::FindNode(a),
                    ResponseView::FindNode { responder_id, nodes },
                ) => {
                    &&& responder_id == a.responder_id
                    &&& same_nodes(Some(nodes), Some(a.nodes))
                },
                (
                    ResponseSpecific::GetPeers(a),
                    ResponseView::GetPeers { responder_id, token, values, nodes },
                ) => {
                    &&& responder_id == a.responder_id
                    &&& token == a.token@
                    &&& values == a.values@
                    &&& same_nodes(nodes, a.nodes)
                },
                (
                    ResponseSpecific::GetImmutable(a),
                    ResponseView::GetImmutable { responder_id, token, nodes, v },
                ) => {
                    &&& responder_id == a.responder_id
                    &&& token == a.token@
                    &&& same_nodes(nodes, a.nodes)
                    &&& v == a.v@
                },
                (
                    ResponseSpecific::GetMutable(a),
                    ResponseView::GetMutable { responder_id, token, nodes, v, k, seq, sig },
                ) => {
                    &&& responder_id == a.responder_id
                    &&& token == a.token@
                    &&& same_nodes(nodes, a.nodes)
                    &&& v == a.v@
                    &&& k == a.k@
                    &&& seq == a.seq
                    &&& sig == a.sig@
                },
                (
                    ResponseSpecific::NoValues(a),
                    ResponseView::NoValues { responder_id, token, nodes },
                ) => {
                    &&& responder_id == a.responder_id
                    &&& token == a.token@
                    &&& same_nodes(nodes, a.nodes)
                },
                (
                    ResponseSpecific::NoMoreRecentValue(a),
                    ResponseView::NoMoreRecentValue { responder_id, token, nodes, seq },
                ) => {
                    &&& responder_id == a.responder_id
                    &&& token == a.token@
                    &&& same_nodes(nodes, a.nodes)
                    &&& seq == a.seq
                },
                _ => false,
            },
            (MessageType::Error(error), MessageTypeView::Error(said)) => {
                &&& said.code == error.code
                &&& said.description == error.description@
            },
            _ => false,
        },
{
}

/// A value says who it is from and all that it brings.
pub proof fn law_values_are_read_whole(value: ResponseValue)
    ensures
        match (value, value@) {
            (ResponseValue::Peer(r), ResponseValueView::Peer { from, peer }) => {
                &&& from == r.from@
                &&& peer == r.peer
            },
            (ResponseValue::Immutable(r), ResponseValueView::Immutable { from, value }) => {
                &&& from == r.from@
                &&& value == content(r.value)
            },
            (ResponseValue::Mutable(r), ResponseValueView::Mutable { from, item }) => {
                &&& from == r.from@
                &&& item == r.item@
            },
            _ => false,
        },
{
}

/// An event says whom it is for and all that it tells.
pub proof fn law_events_are_read_whole(event: Event)
    ensures
        match (event, event@) {
            (Event::Response { to, message }, EventView::Response { to: said_to, message: said }) => {
                &&& said_to == to
                &&& match (message, said) {
                    (
                        ResponseMessage::ResponseValue(value),
                        ResponseMessageView::Value(said),
                    ) => said == value@,
                    (
                        ResponseMessage::ResponseDone(done),
                        ResponseMessageView::Done { visited, closest_nodes },
                    ) => {
                        &&& visited == done.visited
                        &&& same_nodes(Some(closest_nodes), Some(done.closest_nodes))
                    },
                    (
                        ResponseMessage::StoreQueryMetdata(stored),
                        ResponseMessageView::Stored { target, stored_at, closest_nodes },
                    ) => {
                        &&& target == stored.target
                        &&& stored_at == stored.stored_at@
                        &&& same_nodes(Some(closest_nodes), Some(stored.closest_nodes))
                    },
                    _ => false,
                }
            },
            (
                Event::Request { to, from, transaction_id, request },
                EventView::Request {
                    to: said_to,
                    from: said_from,
                    transaction_id: said_tid,
                    request: said_request,
                },
            ) => {
                &&& said_to == to
                &&& said_from == from
                &&& said_tid == transaction_id
                &&& said_request == request@
            },
            (Event::BootstrapFailed, EventView::BootstrapFailed) => true,
            (
                Event::Bootstrapped { table_size },
                EventView::Bootstrapped { table_size: said },
            ) => said == table_size,
            (
                Event::InvalidImmutable { target, value },
                EventView::InvalidImmutable { target: said_target, value: said_value },
            ) => {
                &&& said_target == target
                &&& said_value == content(value)
            },
            (
                Event::InvalidMutable { target, value, seq, signature, salt },
                EventView::InvalidMutable {
                    target: said_target,
                    value: said_value,
                    seq: said_seq,
                    signature: said_signature,
                    salt: said_salt,
                },
            ) => {
                &&& said_target == target
                &&& said_value == content(value)
                &&& said_seq == seq
                &&& said_signature == signature@
                &&& same_buffer(said_salt, salt)
            },
            (Event::ErrorResponse { error }, EventView::ErrorResponse { error: said }) => {
                &&& said.code == error.code
                &&& said.description == error.description@
            },
            _ => false,
        },
{
}

} // verus!
