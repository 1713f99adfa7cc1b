use bytes::Bytes;
use mainline::address::{IpAddr, SocketAddr};
use mainline::id::Id;
use mainline::item::{hash_immutable, MutableItem};
use mainline::messages::{
    ErrorSpecific, FindNodeResponseArguments, Message, MessageType, PingResponseArguments,
    RequestSpecific, ResponseSpecific,
};
use mainline::node::Node;
use mainline::response::{Event, ResponseMessage, ResponseSender, StoreQueryMetdata};
use mainline::rpc::Rpc;
use mainline::socket::Datagram;

const START: u64 = 1_000_000_000_000;

fn id(n: u8) -> Id {
    Id::from_bytes(&[n; 20])
}

fn addr(n: u8) -> SocketAddr {
    SocketAddr::new(IpAddr::V4(0x0a00_0000 + n as u32), 6881)
}

fn node() -> Rpc {
    let bound: Result<SocketAddr, ()> = Ok(addr(1));
    Rpc::new(id(1), [7; 20], [8; 20], bound, START).unwrap()
}

fn sender(channel: u64) -> ResponseSender {
    ResponseSender { channel }
}

/// Nodes 2 and 4 handed out a token, node 3 did not.
fn nodes() -> Vec<Node> {
    vec![
        Node::new(id(2), addr(2), START).with_token(vec![2, 2]),
        Node::new(id(3), addr(3), START),
        Node::new(id(4), addr(4), START).with_token(vec![4, 4]),
    ]
}

fn pong(n: u8, transaction_id: u16) -> Message {
    Message {
        transaction_id,
        read_only: false,
        message_type: MessageType::Response(ResponseSpecific::Ping(PingResponseArguments {
            responder_id: id(n),
        })),
    }
}

fn tick(rpc: &mut Rpc, incoming: Option<(Message, SocketAddr)>) {
    rpc.tick([9; 20], &vec![], incoming, START);
}

fn destinations(sent: &[Datagram]) -> Vec<SocketAddr> {
    sent.iter().map(|d| d.to).collect()
}

fn stored(event: &Event) -> (u64, &StoreQueryMetdata) {
    match event {
        Event::Response { to, message: ResponseMessage::StoreQueryMetdata(stored) } => {
            (to.channel, stored)
        }
        other => panic!("not the end of a store query: {:?}", other),
    }
}

#[test]
fn announcing_asks_the_nodes_that_handed_out_tokens() {
    let mut rpc = node();
    rpc.announce_peer(id(40), nodes(), Some(8080), sender(1), START);
    let sent = rpc.take_outgoing();
    assert_eq!(destinations(&sent), vec![addr(2), addr(4)]);
    for (i, (datagram, n)) in sent.iter().zip([2u8, 4]).enumerate() {
        assert_eq!(datagram.message.transaction_id, i as u16);
        match &datagram.message.message_type {
            MessageType::Request(RequestSpecific::AnnouncePeer(arguments)) => {
                assert_eq!(arguments.requester_id, id(1));
                assert_eq!(arguments.info_hash, id(40));
                assert_eq!(arguments.port, 8080);
                assert_eq!(arguments.implied_port, None);
                assert_eq!(arguments.token, vec![n, n]);
            }
            other => panic!("not an announcement: {:?}", other),
        }
    }
}

#[test]
fn announcing_without_a_port_implies_it() {
    let mut rpc = node();
    rpc.announce_peer(id(40), nodes(), None, sender(1), START);
    match &rpc.take_outgoing()[0].message.message_type {
        MessageType::Request(RequestSpecific::AnnouncePeer(arguments)) => {
            assert_eq!(arguments.port, 0);
            assert_eq!(arguments.implied_port, Some(true));
        }
        other => panic!("not an announcement: {:?}", other),
    }
}

#[test]
fn only_pongs_count_as_stored() {
    let mut rpc = node();
    rpc.announce_peer(id(40), nodes(), None, sender(1), START);
    rpc.take_outgoing();
    tick(&mut rpc, Some((pong(2, 0), addr(2))));
    let other = Message {
        transaction_id: 1,
        read_only: false,
        message_type: MessageType::Response(ResponseSpecific::FindNode(
            FindNodeResponseArguments { responder_id: id(4), nodes: vec![] },
        )),
    };
    tick(&mut rpc, Some((other, addr(4))));
    assert_eq!(rpc.take_events().len(), 0);
    tick(&mut rpc, None);
    let events = rpc.take_events();
    assert_eq!(events.len(), 1);
    let (channel, end) = stored(&events[0]);
    assert_eq!(channel, 1);
    assert_eq!(end.target, id(40));
    assert_eq!(end.stored_at, vec![id(2)]);
    let asked: Vec<Id> = end.closest_nodes.iter().map(|n| n.id).collect();
    assert_eq!(asked, vec![id(2), id(4)]);
    tick(&mut rpc, None);
    assert_eq!(rpc.take_events().len(), 0);
}

#[test]
fn a_refusal_is_told_and_ends_the_wait() {
    let mut rpc = node();
    rpc.announce_peer(id(40), nodes(), None, sender(1), START);
    tick(&mut rpc, Some((pong(2, 0), addr(2))));
    let error = Message {
        transaction_id: 1,
        read_only: false,
        message_type: MessageType::Error(ErrorSpecific {
            code: 203,
            description: "Bad token".to_string(),
        }),
    };
    tick(&mut rpc, Some((error, addr(4))));
    tick(&mut rpc, None);
    let events = rpc.take_events();
    assert_eq!(events.len(), 2);
    assert!(matches!(events[0], Event::ErrorResponse { .. }));
    assert_eq!(stored(&events[1]).1.stored_at, vec![id(2)]);
}

#[test]
fn storing_at_nobody_ends_at_once() {
    let mut rpc = node();
    let tokenless = vec![Node::new(id(3), addr(3), START)];
    rpc.announce_peer(id(40), tokenless, None, sender(1), START);
    assert_eq!(rpc.take_outgoing().len(), 0);
    tick(&mut rpc, None);
    let events = rpc.take_events();
    assert_eq!(events.len(), 1);
    let (_, end) = stored(&events[0]);
    assert_eq!(end.stored_at.len(), 0);
    assert_eq!(end.closest_nodes.len(), 0);
}

#[test]
fn storing_again_replaces_the_store_query() {
    let mut rpc = node();
    rpc.announce_peer(id(40), nodes(), None, sender(1), START);
    rpc.announce_peer(id(41), nodes(), None, sender(2), START);
    rpc.announce_peer(id(40), nodes(), None, sender(3), START);
    let sent = rpc.take_outgoing();
    assert_eq!(sent.len(), 6);
    for (i, datagram) in sent.iter().enumerate() {
        tick(&mut rpc, Some((pong(2 + 2 * (i as u8 % 2), i as u16), datagram.to)));
    }
    tick(&mut rpc, None);
    let events = rpc.take_events();
    let told: Vec<(u64, usize)> =
        events.iter().map(|e| (stored(e).0, stored(e).1.stored_at.len())).collect();
    // The first receiver is never told. The answer that ends a store query is heard of in the
    // step after it came.
    assert_eq!(told, vec![(2, 2), (3, 2)]);
}

#[test]
fn immutable_values_go_out_whole() {
    let mut rpc = node();
    let target = hash_immutable(&b"Hello World!".to_vec());
    rpc.put_immutable(target, Bytes::from_static(b"Hello World!"), nodes(), sender(1), START);
    let sent = rpc.take_outgoing();
    assert_eq!(destinations(&sent), vec![addr(2), addr(4)]);
    match &sent[1].message.message_type {
        MessageType::Request(RequestSpecific::PutImmutable(arguments)) => {
            assert_eq!(arguments.requester_id, id(1));
            assert_eq!(arguments.target, target);
            assert_eq!(arguments.token, vec![4, 4]);
            assert_eq!(arguments.v, b"Hello World!".to_vec());
        }
        other => panic!("not a put request: {:?}", other),
    }
}

#[test]
fn mutable_items_go_out_whole() {
    let mut rpc = node();
    let item = MutableItem::new_signed_unchecked(
        vec![5; 32],
        vec![6; 64],
        Bytes::from_static(b"value"),
        -3,
        Some(Bytes::from_static(b"salt")),
    )
    .with_cas(Some(-4));
    let target = *item.target();
    rpc.put_mutable(item, nodes(), sender(1), START);
    let sent = rpc.take_outgoing();
    assert_eq!(destinations(&sent), vec![addr(2), addr(4)]);
    match &sent[0].message.message_type {
        MessageType::Request(RequestSpecific::PutMutable(arguments)) => {
            assert_eq!(arguments.requester_id, id(1));
            assert_eq!(arguments.target, target);
            assert_eq!(arguments.token, vec![2, 2]);
            assert_eq!(arguments.v, b"value".to_vec());
            assert_eq!(arguments.k, vec![5; 32]);
            assert_eq!(arguments.seq, -3);
            assert_eq!(arguments.sig, vec![6; 64]);
            assert_eq!(arguments.salt, Some(b"salt".to_vec()));
            assert_eq!(arguments.cas, Some(-4));
        }
        other => panic!("not a put request: {:?}", other),
    }
}

#[test]
fn answers_to_a_replaced_store_query_count_for_none() {
    let mut rpc = node();
    rpc.announce_peer(id(40), nodes(), None, sender(1), START);
    let again = vec![Node::new(id(4), addr(4), START).with_token(vec![4, 4])];
    rpc.announce_peer(id(40), again, None, sender(2), START);
    assert_eq!(rpc.take_outgoing()[2].message.transaction_id, 2);
    tick(&mut rpc, Some((pong(2, 0), addr(2))));
    tick(&mut rpc, Some((pong(4, 1), addr(4))));
    tick(&mut rpc, None);
    assert_eq!(rpc.take_events().len(), 0);
    tick(&mut rpc, Some((pong(4, 2), addr(4))));
    tick(&mut rpc, None);
    let events = rpc.take_events();
    assert_eq!(events.len(), 1);
    let (channel, end) = stored(&events[0]);
    assert_eq!(channel, 2);
    assert_eq!(end.stored_at, vec![id(4)]);
}

#[test]
fn the_end_of_a_store_query_is_told_in_the_step_that_takes_it_out() {
    let mut rpc = node().with_request_timeout(0);
    rpc.announce_peer(id(40), nodes(), None, sender(1), START);
    rpc.announce_peer(id(41), nodes(), None, sender(2), START);
    rpc.receive(None, START);
    assert_eq!(rpc.take_events().len(), 0);
    rpc.maintain([9; 20], &vec![], START);
    let events = rpc.take_events();
    let told: Vec<(u64, usize)> =
        events.iter().map(|e| (stored(e).0, stored(e).1.stored_at.len())).collect();
    assert_eq!(told, vec![(1, 0), (2, 0)]);
    rpc.maintain([9; 20], &vec![], START);
    assert_eq!(rpc.take_events().len(), 0);
}
