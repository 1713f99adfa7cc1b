//! What holds of what a node sends and of what its socket lets through.

use crate::address::SocketAddr;
use crate::clock::spec_elapsed;
use crate::messages::{MessageTypeView, MessageView, RequestView};
use crate::seqs::{first_index, lemma_first_index};
use crate::socket::{has_tid, not_timed_out, InflightRequest, SocketView};
use vstd::prelude::*;

verus! {

/// Time that passed and the moment it is counted from make up the present; where the present comes
/// first, no time passed.
pub proof fn law_time_adds_up(since: u64, now: u64)
    ensures
        since <= now ==> since + spec_elapsed(since, now) == now,
        now <= since ==> spec_elapsed(since, now) == 0,
{
}

/// Whether a socket sent one request to each of some addresses, in order, under consecutive
/// transactions of 16 bits, and did nothing else: each datagram says whether the node is read-only
/// and carries the request, and each request is under way since `now`.
pub open spec fn sends(
    before: SocketView,
    after: SocketView,
    to: Seq<SocketAddr>,
    request: RequestView,
    now: u64,
) -> bool {
    let sent = before.outgoing.len() as int;
    let under_way = before.inflight.len() as int;
    &&& after.outgoing.len() == sent + to.len()
    &&& after.inflight.len() == under_way + to.len()
    &&& forall|i: int| 0 <= i < sent ==> #[trigger] after.outgoing[i] == before.outgoing[i]
    &&& forall|i: int| 0 <= i < under_way ==> #[trigger] after.inflight[i] == before.inflight[i]
    &&& forall|i: int|
        sent <= i < sent + to.len() ==> {
            let datagram = #[trigger] after.outgoing[i];
            &&& datagram.to == to[i - sent]
            &&& datagram.message.transaction_id == (before.next_tid + (i - sent)) % 0x1_0000
            &&& datagram.message.read_only == before.read_only
            &&& datagram.message.message_type == MessageTypeView::Request(request)
        }
    &&& forall|i: int|
        under_way <= i < under_way + to.len() ==> {
            let waiting = #[trigger] after.inflight[i];
            &&& waiting.transaction_id == (before.next_tid + (i - under_way)) % 0x1_0000
            &&& waiting.to == to[i - under_way]
            &&& waiting.sent_at == now
        }
    &&& after.next_tid == (before.next_tid + to.len()) % 0x1_0000
    &&& after.read_only == before.read_only
    &&& after.request_timeout == before.request_timeout
    &&& after.local_addr == before.local_addr
}

/// Sending one request to several addresses sends it to each of them, and nothing else.
pub proof fn law_requests_go_to_every_address(
    socket: SocketView,
    to: Seq<SocketAddr>,
    request: RequestView,
    now: u64,
)
    ensures
        sends(socket, socket.request_all(to, request, now), to, request, now),
    decreases to.len(),
{
    if to.len() > 0 {
        let front = to.drop_last();
        law_requests_go_to_every_address(socket, front, request, now);
        let mid = socket.request_all(front, request, now);
        let after = socket.request_all(to, request, now);
        let sent = socket.outgoing.len() as int;
        let under_way = socket.inflight.len() as int;
        assert forall|i: int| sent <= i < sent + to.len() implies {
            let datagram = #[trigger] after.outgoing[i];
            &&& datagram.to == to[i - sent]
            &&& datagram.message.transaction_id == (socket.next_tid + (i - sent)) % 0x1_0000
            &&& datagram.message.read_only == socket.read_only
            &&& datagram.message.message_type == MessageTypeView::Request(request)
        } by {
            if i < sent + front.len() {
                assert(after.outgoing[i] == mid.outgoing[i]);
                assert(front[i - sent] == to[i - sent]);
            }
        }
        assert forall|i: int| under_way <= i < under_way + to.len() implies {
            let waiting = #[trigger] after.inflight[i];
            &&& waiting.transaction_id == (socket.next_tid + (i - under_way)) % 0x1_0000
            &&& waiting.to == to[i - under_way]
            &&& waiting.sent_at == now
        } by {
            if i < under_way + front.len() {
                assert(after.inflight[i] == mid.inflight[i]);
                assert(front[i - under_way] == to[i - under_way]);
            }
        }
    }
}

/// A reply is one datagram more, to where it is meant for and under the transaction that it
/// answers; nothing else of the socket changes.
pub proof fn law_replies_go_out_as_they_are(
    socket: SocketView,
    to: SocketAddr,
    transaction_id: u16,
    message_type: MessageTypeView,
)
    ensures
        ({
            let after = socket.reply(to, transaction_id, message_type);
            &&& after.outgoing.len() == socket.outgoing.len() + 1
            &&& after.outgoing.drop_last() == socket.outgoing
            &&& after.outgoing.last().to == to
            &&& after.outgoing.last().message.transaction_id == transaction_id
            &&& after.outgoing.last().message.read_only == socket.read_only
            &&& after.outgoing.last().message.message_type == message_type
            &&& after == SocketView { outgoing: after.outgoing, ..socket }
        }),
{
    let after = socket.reply(to, transaction_id, message_type);
    assert(after.outgoing.drop_last() =~= socket.outgoing);
}

/// Whether a request is younger than the time-out of a socket, which is in milliseconds.
pub open spec fn in_time(socket: SocketView, waiting: InflightRequest, now: u64) -> bool {
    if now >= waiting.sent_at {
        now - waiting.sent_at < socket.request_timeout * 1_000_000
    } else {
        socket.request_timeout > 0
    }
}

/// What arrives at a socket is let through exactly where it comes from a port other than 0 and is a
/// request, or where a request in time with its transaction is under way to the address that it
/// comes from and no earlier one in time has that transaction. What is under way afterwards was so
/// before and is in time; of a response that is let through, one request less is. What is to be
/// sent stays.
pub proof fn law_what_is_let_through(
    socket: SocketView,
    message: MessageView,
    from: SocketAddr,
    now: u64,
)
    ensures
        ({
            let (after, through) = socket.receive(message, from, now);
            let tid = message.transaction_id;
            let kept = socket.inflight.filter(|r: InflightRequest| in_time(socket, r, now));
            &&& through <==> from.port != 0 && {
                ||| message.message_type is Request
                ||| exists|i: int|
                    0 <= i < kept.len() && (#[trigger] kept[i]).transaction_id == tid && kept[i].to
                        == from && forall|j: int|
                        0 <= j < i ==> (#[trigger] kept[j]).transaction_id != tid
            }
            &&& !through || message.message_type is Request ==> after.inflight == kept
            &&& through && !(message.message_type is Request) ==> {
                &&& after.inflight.len() == kept.len() - 1
                &&& forall|i: int|
                    0 <= i < kept.len() && (#[trigger] kept[i]).transaction_id == tid && (forall|
                        j: int,
                    |
                        0 <= j < i ==> (#[trigger] kept[j]).transaction_id != tid)
                        ==> after.inflight == kept.remove(i)
            }
            &&& after == SocketView { inflight: after.inflight, ..socket }
        }),
{
    let keep = |r: InflightRequest| in_time(socket, r, now);
    let kept = socket.inflight.filter(keep);
    let tid = message.transaction_id;
    assert(not_timed_out(socket.request_timeout, now) =~= keep) by {
        assert forall|r: InflightRequest| #[trigger] keep(r) == not_timed_out(
            socket.request_timeout,
            now,
        )(r) by {}
    }
    let purged = socket.without_timed_out(now);
    assert(purged.inflight == kept);
    lemma_first_index(kept, has_tid(tid));
    let at = first_index(kept, has_tid(tid));
    let (after, through) = socket.receive(message, from, now);
    assert forall|i: int|
        0 <= i < kept.len() && (#[trigger] kept[i]).transaction_id == tid && (forall|j: int|
            0 <= j < i ==> (#[trigger] kept[j]).transaction_id != tid) implies i == at by {
        assert(has_tid(tid)(kept[i]));
        if at < i {
            assert(kept[at].transaction_id == tid);
        }
    }
    if at < kept.len() {
        assert(kept[at].transaction_id == tid);
        assert forall|j: int| 0 <= j < at implies (#[trigger] kept[j]).transaction_id != tid by {
            assert(!has_tid(tid)(kept[j]));
        }
    }
}

/// A socket goes on awaiting exactly the requests that are in time, where nothing arrives.
pub proof fn law_what_is_out_of_time_is_forgotten(socket: SocketView, now: u64)
    ensures
        socket.without_timed_out(now) == (SocketView {
            inflight: socket.inflight.filter(|r: InflightRequest| in_time(socket, r, now)),
            ..socket
        }),
{
    let keep = |r: InflightRequest| in_time(socket, r, now);
    assert(not_timed_out(socket.request_timeout, now) =~= keep) by {
        assert forall|r: InflightRequest| #[trigger] keep(r) == not_timed_out(
            socket.request_timeout,
            now,
        )(r) by {}
    }
}

/// A socket awaits a transaction exactly where a request with it is under way.
pub proof fn law_awaited_is_under_way(socket: SocketView, tid: u16)
    ensures
        socket.awaits(tid) <==> exists|i: int|
            0 <= i < socket.inflight.len() && (#[trigger] socket.inflight[i]).transaction_id == tid,
{
    lemma_first_index(socket.inflight, has_tid(tid));
    let at = first_index(socket.inflight, has_tid(tid));
    if at < socket.inflight.len() {
        assert(has_tid(tid)(socket.inflight[at]));
    }
    if exists|i: int|
        0 <= i < socket.inflight.len() && (#[trigger] socket.inflight[i]).transaction_id == tid {
        let i = choose|i: int|
            0 <= i < socket.inflight.len() && (#[trigger] socket.inflight[i]).transaction_id == tid;
        assert(has_tid(tid)(socket.inflight[i]));
    }
}

} // verus!
