//! What one node stores at another, a third finds there.

use crate::address::SocketAddr;
use crate::id::Id;
use crate::item::{immutable_target, ItemView};
use crate::laws::serving::{
    law_announced_peers_are_found, law_handed_out_tokens_are_accepted,
    law_stored_immutable_values_are_found, law_stored_mutable_items_are_found, may_replace,
    put_request,
};
use crate::messages::{MessageView, RequestView};
use crate::node::NodeView;
use crate::query::QueryView;
use crate::response::ResponseValueView;
use crate::rpc::server::{MAX_SALT_LENGTH, MAX_VALUE_LENGTH};
use crate::state::{RpcView, StoreView};
use vstd::prelude::*;

verus! {

/// What a node answers to a reader after it carried out what a writer asked of it.
pub open spec fn answer_after(
    server: RpcView,
    writer: SocketAddr,
    write_tid: u16,
    write: RequestView,
    reader: SocketAddr,
    read_tid: u16,
    read: RequestView,
) -> MessageView {
    server.handle_request(writer, write_tid, write).handle_request(
        reader,
        read_tid,
        read,
    ).socket.outgoing.last().message
}

/// An immutable value that a node stores at another, with the token that it was handed, is what a
/// query for it finds there and passes on.
pub proof fn law_immutable_round_trip(
    server: RpcView,
    server_addr: SocketAddr,
    writer_id: Id,
    writer: SocketAddr,
    write_tid: u16,
    v: Seq<u8>,
    q: QueryView,
    reader: SocketAddr,
    reader_id: Id,
    read_tid: u16,
    salt: Option<Seq<u8>>,
    now: u64,
)
    requires
        server.wf(),
        v.len() <= MAX_VALUE_LENGTH,
        q.target == immutable_target(v),
        q.request == (RequestView::GetValue {
            requester_id: reader_id,
            target: q.target,
            seq: None,
            salt,
        }),
    ensures
        ({
            let write = StoreView::Immutable { value: v }.request(
                writer_id,
                q.target,
                server.token(writer),
            );
            let answer = answer_after(
                server,
                writer,
                write_tid,
                write,
                reader,
                read_tid,
                q.request,
            );
            q.take_in(server_addr, answer, now).0 == q.response(
                ResponseValueView::Immutable {
                    from: NodeView::fresh(server.id, server_addr, now),
                    value: v,
                },
            )
        }),
{
    law_handed_out_tokens_are_accepted(server.tokens, writer, writer, Seq::empty(), now);
    law_stored_immutable_values_are_found(
        server,
        writer,
        write_tid,
        writer_id,
        server.token(writer),
        v,
        reader,
        read_tid,
        reader_id,
        salt,
    );
}

/// A mutable item that a node stores at another, with the token that it was handed, is what a
/// query for its target and salt finds there and passes on. What it may replace is no longer part
/// of it.
pub proof fn law_mutable_round_trip(
    server: RpcView,
    server_addr: SocketAddr,
    writer_id: Id,
    writer: SocketAddr,
    write_tid: u16,
    item: ItemView,
    q: QueryView,
    reader: SocketAddr,
    reader_id: Id,
    read_tid: u16,
    now: u64,
)
    requires
        server.wf(),
        item.value.len() <= MAX_VALUE_LENGTH,
        item.salt is Some ==> item.salt->0.len() <= MAX_SALT_LENGTH,
        item.signed(),
        may_replace(server.mutable_values.find(item.target), item),
        server.immutable_values.find(item.target) is None,
        q.target == item.target,
        q.request == (RequestView::GetValue {
            requester_id: reader_id,
            target: q.target,
            seq: None,
            salt: item.salt,
        }),
    ensures
        ({
            let write = StoreView::Mutable { item }.request(
                writer_id,
                q.target,
                server.token(writer),
            );
            let answer = answer_after(
                server,
                writer,
                write_tid,
                write,
                reader,
                read_tid,
                q.request,
            );
            q.take_in(server_addr, answer, now).0 == q.response(
                ResponseValueView::Mutable {
                    from: NodeView::fresh(server.id, server_addr, now),
                    item: ItemView { cas: None, ..item },
                },
            )
        }),
{
    law_handed_out_tokens_are_accepted(server.tokens, writer, writer, Seq::empty(), now);
    law_stored_mutable_items_are_found(
        server,
        writer,
        write_tid,
        writer_id,
        server.token(writer),
        item,
        reader,
        read_tid,
        reader_id,
        None,
        item.salt,
    );
    let write = StoreView::Mutable { item }.request(writer_id, q.target, server.token(writer));
    assert(write == put_request(writer_id, server.token(writer), item));
    assert((ItemView { cas: None, ..item }).signed());
}

/// A node that announces itself at another, with the token that it was handed, is the last peer
/// that a query for the info hash finds there and passes on: on the port that it named, or on the
/// one that it sent from.
pub proof fn law_peer_round_trip(
    server: RpcView,
    server_addr: SocketAddr,
    writer_id: Id,
    writer: SocketAddr,
    write_tid: u16,
    port: Option<u16>,
    q: QueryView,
    reader: SocketAddr,
    reader_id: Id,
    read_tid: u16,
    now: u64,
)
    requires
        server.wf(),
        q.request == (RequestView::GetPeers { requester_id: reader_id, info_hash: q.target }),
    ensures
        ({
            let write = StoreView::Peer { port }.request(
                writer_id,
                q.target,
                server.token(writer),
            );
            let answer = answer_after(
                server,
                writer,
                write_tid,
                write,
                reader,
                read_tid,
                q.request,
            );
            let after = q.take_in(server_addr, answer, now).0;
            &&& after.responses.len() > q.responses.len()
            &&& after.responses.last() == ResponseValueView::Peer {
                from: NodeView::fresh(server.id, server_addr, now),
                peer: match port {
                    Some(port) => SocketAddr { ip: writer.ip, port },
                    None => writer,
                },
            }
        }),
{
    law_handed_out_tokens_are_accepted(server.tokens, writer, writer, Seq::empty(), now);
    let (named, implied): (u16, Option<bool>) = match port {
        Some(port) => (port, None),
        None => (0, Some(true)),
    };
    law_announced_peers_are_found(
        server,
        writer,
        write_tid,
        writer_id,
        q.target,
        named,
        implied,
        server.token(writer),
        reader,
        read_tid,
        reader_id,
    );
}

} // verus!
