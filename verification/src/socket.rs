//! The node's end of the wire: which requests are under way, and what is to be sent.

use crate::address::SocketAddr;
use crate::clock::{elapsed, spec_elapsed, MILLISECOND};
use crate::messages::{
    ErrorSpecific, Message, MessageType, MessageTypeView, MessageView, RequestSpecific, RequestView,
    ResponseSpecific,
};
use crate::seqs::{first_index, lemma_filter_take, lemma_first_index_is};
use vstd::prelude::*;

verus! {

/// How many milliseconds a request may go unanswered unless another time is set: two seconds.
pub const DEFAULT_REQUEST_TIMEOUT: u64 = 2_000;

/// A request that was sent and not answered yet.
#[derive(Clone, Copy, Debug)]
pub struct InflightRequest {
    pub transaction_id: u16,
    pub to: SocketAddr,
    pub sent_at: u64,
}

/// A message to be sent.
#[derive(Debug)]
pub struct Datagram {
    pub to: SocketAddr,
    pub message: Message,
}

/// The node's end of the wire.
#[derive(Debug)]
pub struct KrpcSocket {
    /// Whether the node tells others that it answers no requests.
    read_only: bool,
    /// How long a request may go unanswered, in milliseconds.
    request_timeout: u64,
    next_tid: u16,
    inflight_requests: Vec<InflightRequest>,
    outgoing: Vec<Datagram>,
    local_addr: SocketAddr,
}

/// What a [`Datagram`] says.
#[verifier::ext_equal]
pub struct DatagramView {
    pub to: SocketAddr,
    pub message: MessageView,
}

/// What a [`KrpcSocket`] holds.
#[verifier::ext_equal]
pub struct SocketView {
    pub read_only: bool,
    /// How long a request may go unanswered, in milliseconds.
    pub request_timeout: u64,
    pub next_tid: u16,
    pub inflight: Seq<InflightRequest>,
    pub outgoing: Seq<DatagramView>,
    pub local_addr: SocketAddr,
}

impl View for Datagram {
    type V = DatagramView;

    open spec fn view(&self) -> DatagramView {
        DatagramView { to: self.to, message: self.message@ }
    }
}

/// What a list of datagrams says.
pub open spec fn datagram_views(datagrams: Seq<Datagram>) -> Seq<DatagramView> {
    datagrams.map_values(|d: Datagram| d@)
}

impl View for KrpcSocket {
    type V = SocketView;

    closed spec fn view(&self) -> SocketView {
        SocketView {
            read_only: self.read_only,
            request_timeout: self.request_timeout,
            next_tid: self.next_tid,
            inflight: self.inflight_requests@,
            outgoing: datagram_views(self.outgoing@),
            local_addr: self.local_addr,
        }
    }
}

/// The transaction after `tid`.
pub open spec fn tid_after(tid: u16) -> u16 {
    if tid == u16::MAX {
        0
    } else {
        (tid + 1) as u16
    }
}

/// Whether a request carries a transaction.
pub open spec fn has_tid(tid: u16) -> spec_fn(InflightRequest) -> bool {
    |r: InflightRequest| r.transaction_id == tid
}

/// Whether a request is not older than the time-out, which is in milliseconds.
pub open spec fn not_timed_out(timeout: u64, now: u64) -> spec_fn(InflightRequest) -> bool {
    |r: InflightRequest| spec_elapsed(r.sent_at, now) < timeout * MILLISECOND
}

impl SocketView {
    /// A socket as it is after it was bound to an address.
    pub open spec fn bound(local_addr: SocketAddr) -> SocketView {
        SocketView {
            read_only: false,
            request_timeout: DEFAULT_REQUEST_TIMEOUT,
            next_tid: 0,
            inflight: Seq::empty(),
            outgoing: Seq::empty(),
            local_addr,
        }
    }

    /// Sending a request: it goes out under the next transaction, and is under way.
    pub open spec fn request(self, to: SocketAddr, request: RequestView, now: u64) -> SocketView {
        let message = MessageView {
            transaction_id: self.next_tid,
            read_only: self.read_only,
            message_type: MessageTypeView::Request(request),
        };
        SocketView {
            next_tid: tid_after(self.next_tid),
            inflight: self.inflight.push(
                InflightRequest { transaction_id: self.next_tid, to, sent_at: now },
            ),
            outgoing: self.outgoing.push(DatagramView { to, message }),
            ..self
        }
    }

    /// Sending one request to several addresses, in order.
    pub open spec fn request_all(
        self,
        addresses: Seq<SocketAddr>,
        request: RequestView,
        now: u64,
    ) -> SocketView
        decreases addresses.len(),
    {
        if addresses.len() == 0 {
            self
        } else {
            self.request_all(addresses.drop_last(), request, now).request(
                addresses.last(),
                request,
                now,
            )
        }
    }

    /// Sending a reply under the transaction of its request.
    pub open spec fn reply(
        self,
        to: SocketAddr,
        transaction_id: u16,
        message_type: MessageTypeView,
    ) -> SocketView {
        let message = MessageView { transaction_id, read_only: self.read_only, message_type };
        SocketView { outgoing: self.outgoing.push(DatagramView { to, message }), ..self }
    }

    /// Whether a request with this transaction is under way.
    pub open spec fn awaits(self, tid: u16) -> bool {
        first_index(self.inflight, has_tid(tid)) < self.inflight.len()
    }

    /// The socket without the requests that timed out.
    pub open spec fn without_timed_out(self, now: u64) -> SocketView {
        SocketView {
            inflight: self.inflight.filter(not_timed_out(self.request_timeout, now)),
            ..self
        }
    }

    /// Taking in a message: requests that timed out are forgotten first. A message from port 0
    /// is dropped. A request is let through. A response or an error is let through where the
    /// request with its transaction went to the address that it comes from, and that request is
    /// then no longer under way; otherwise it is dropped.
    pub open spec fn receive(self, message: MessageView, from: SocketAddr, now: u64) -> (
        SocketView,
        bool,
    ) {
        let purged = self.without_timed_out(now);
        let index = first_index(purged.inflight, has_tid(message.transaction_id));
        if from.port == 0 {
            (purged, false)
        } else if message.message_type is Request {
            (purged, true)
        } else if index < purged.inflight.len() && purged.inflight[index].to == from {
            (SocketView { inflight: purged.inflight.remove(index), ..purged }, true)
        } else {
            (purged, false)
        }
    }
}

impl KrpcSocket {
    /// A socket that was bound to an address.
    pub fn bound(local_addr: SocketAddr) -> (r: KrpcSocket)
        ensures
            r@ == SocketView::bound(local_addr),
    {
        let r = KrpcSocket {
            read_only: false,
            request_timeout: DEFAULT_REQUEST_TIMEOUT,
            next_tid: 0,
            inflight_requests: Vec::new(),
            outgoing: Vec::new(),
            local_addr,
        };
        assert(r@ =~= SocketView::bound(local_addr));
        r
    }

    /// The address that the socket is bound to.
    pub fn local_addr(&self) -> (r: SocketAddr)
        ensures
            r == self@.local_addr,
    {
        self.local_addr
    }

    /// Says whether the node answers requests.
    pub fn set_read_only(&mut self, read_only: bool)
        ensures
            final(self)@ == (SocketView { read_only, ..old(self)@ }),
    {
        self.read_only = read_only;
    }

    /// Sets how long a request may go unanswered, in milliseconds.
    pub fn set_request_timeout(&mut self, timeout: u64)
        ensures
            final(self)@ == (SocketView { request_timeout: timeout, ..old(self)@ }),
    {
        self.request_timeout = timeout;
    }

    /// Sends a request and returns its transaction.
    pub fn request(&mut self, to: SocketAddr, request: RequestSpecific, now: u64) -> (r: u16)
        ensures
            r == old(self)@.next_tid,
            final(self)@ == old(self)@.request(to, request@, now),
    {
        let ghost before = self@;
        let tid: u16 = self.next_tid;
        self.next_tid = if tid == u16::MAX { 0 } else { tid + 1 };
        self.inflight_requests.push(InflightRequest { transaction_id: tid, to, sent_at: now });
        self.outgoing.push(
            Datagram {
                to,
                message: Message {
                    transaction_id: tid,
                    read_only: self.read_only,
                    message_type: MessageType::Request(request),
                },
            },
        );
        assert(self@ =~= before.request(to, request@, now));
        tid
    }

    /// Sends a response under the transaction of its request.
    pub fn response(&mut self, to: SocketAddr, transaction_id: u16, response: ResponseSpecific)
        ensures
            final(self)@ == old(self)@.reply(
                to,
                transaction_id,
                MessageTypeView::Response(response@),
            ),
    {
        let ghost before = self@;
        self.outgoing.push(
            Datagram {
                to,
                message: Message {
                    transaction_id,
                    read_only: self.read_only,
                    message_type: MessageType::Response(response),
                },
            },
        );
        assert(self@ =~= before.reply(to, transaction_id, MessageTypeView::Response(response@)));
    }

    /// Sends an error under the transaction of its request.
    pub fn error(&mut self, to: SocketAddr, transaction_id: u16, error: ErrorSpecific)
        ensures
            final(self)@ == old(self)@.reply(to, transaction_id, MessageTypeView::Error(error@)),
    {
        let ghost before = self@;
        self.outgoing.push(
            Datagram {
                to,
                message: Message {
                    transaction_id,
                    read_only: self.read_only,
                    message_type: MessageType::Error(error),
                },
            },
        );
        assert(self@ =~= before.reply(to, transaction_id, MessageTypeView::Error(error@)));
    }

    /// The index of the request with a transaction, or the number of requests under way.
    fn position(&self, tid: u16) -> (r: usize)
        ensures
            r == first_index(self@.inflight, has_tid(tid)),
            r <= self.inflight_requests.len(),
    {
        let mut i: usize = 0;
        while i < self.inflight_requests.len() && self.inflight_requests[i].transaction_id != tid
            invariant
                i <= self.inflight_requests.len(),
                forall|j: int| 0 <= j < i ==> !has_tid(tid)(#[trigger] self@.inflight[j]),
            decreases self.inflight_requests.len() - i,
        {
            i = i + 1;
        }
        proof {
            lemma_first_index_is(self@.inflight, has_tid(tid), i as int);
        }
        i
    }

    /// Whether a request with this transaction is under way.
    pub fn awaits(&self, tid: u16) -> (r: bool)
        ensures
            r == self@.awaits(tid),
    {
        self.position(tid) < self.inflight_requests.len()
    }

    /// Forgets the requests that timed out.
    pub fn forget_timed_out(&mut self, now: u64)
        ensures
            final(self)@ == old(self)@.without_timed_out(now),
    {
        let ghost before = self@;
        let ghost pred = not_timed_out(before.request_timeout, now);
        let mut kept: Vec<InflightRequest> = Vec::new();
        let mut i: usize = 0;
        proof {
            reveal(Seq::filter);
            assert(kept@ =~= before.inflight.take(0).filter(pred));
        }
        while i < self.inflight_requests.len()
            invariant
                i <= self.inflight_requests.len(),
                self@ == before,
                pred == not_timed_out(before.request_timeout, now),
                kept@ == before.inflight.take(i as int).filter(pred),
            decreases self.inflight_requests.len() - i,
        {
            let request = self.inflight_requests[i];
            proof {
                lemma_filter_take(before.inflight, pred, i as int);
            }
            let unanswered: u64 = elapsed(request.sent_at, now);
            if (unanswered as u128) < self.request_timeout as u128 * MILLISECOND as u128 {
                kept.push(request);
            }
            i = i + 1;
        }
        proof {
            assert(before.inflight.take(before.inflight.len() as int) =~= before.inflight);
        }
        self.inflight_requests = kept;
        assert(self@ =~= before.without_timed_out(now));
    }

    /// Takes in a message, and says whether it is let through, as [`SocketView::receive`] says.
    pub fn receive(&mut self, message: &Message, from: SocketAddr, now: u64) -> (r: bool)
        ensures
            (final(self)@, r) == old(self)@.receive(message@, from, now),
    {
        self.forget_timed_out(now);
        if from.port == 0 {
            return false;
        }
        if let MessageType::Request(_) = &message.message_type {
            return true;
        }
        let index: usize = self.position(message.transaction_id);
        if index < self.inflight_requests.len() && self.inflight_requests[index].to == from {
            let ghost before = self@;
            self.inflight_requests.remove(index);
            assert(self@ =~= (SocketView {
                inflight: before.inflight.remove(index as int),
                ..before
            }));
            true
        } else {
            false
        }
    }

    /// Hands over what is to be sent, in the order in which it was meant to be sent.
    pub fn take_outgoing(&mut self) -> (r: Vec<Datagram>)
        ensures
            datagram_views(r@) == old(self)@.outgoing,
            final(self)@ == (SocketView { outgoing: Seq::empty(), ..old(self)@ }),
    {
        let ghost before = self@;
        let mut taken: Vec<Datagram> = Vec::new();
        std::mem::swap(&mut taken, &mut self.outgoing);
        assert(self@ =~= (SocketView { outgoing: Seq::empty(), ..before }));
        taken
    }
}

} // verus!
