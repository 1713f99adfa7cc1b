use mainline::address::{IpAddr, SocketAddr};
use mainline::id::Id;
use mainline::messages::{
    ErrorSpecific, FindNodeResponseArguments, GetPeersResponseArguments, Message, MessageType,
    NoValuesResponseArguments, PingRequestArguments, PingResponseArguments, RequestSpecific,
    ResponseSpecific,
};
use mainline::node::Node;
use mainline::response::{Event, RequestSender, ResponseMessage, ResponseSender, ResponseValue};
use mainline::rpc::Rpc;
use mainline::socket::Datagram;

const MS: u64 = 1_000_000;

const START: u64 = 1_000_000 * MS;

fn id(n: u8) -> Id {
    Id::from_bytes(&[n; 20])
}

fn addr(n: u8) -> SocketAddr {
    SocketAddr::new(IpAddr::V4(0x0a00_0000 + n as u32), 6881)
}

fn node() -> Rpc {
    let bound: Result<SocketAddr, ()> = Ok(addr(1));
    Rpc::new(id(1), [7; 20], [8; 20], bound, START).unwrap()
}

/// A node that tried to find the network a moment ago, and found nobody.
fn settled() -> Rpc {
    let bound: Result<SocketAddr, ()> = Ok(addr(1));
    let mut rpc = Rpc::new(id(1), [7; 20], [8; 20], bound, START - 10 * MS).unwrap();
    tick(&mut rpc, None, START - 9 * MS);
    tick(&mut rpc, None, START - 8 * MS);
    assert!(matches!(rpc.take_events()[..], [Event::BootstrapFailed]));
    rpc
}

fn found(list: &[u8]) -> Vec<Option<Vec<SocketAddr>>> {
    vec![Some(list.iter().map(|n| addr(*n)).collect())]
}

fn sender(channel: u64) -> ResponseSender {
    ResponseSender { channel }
}

fn response(transaction_id: u16, response: ResponseSpecific) -> Message {
    Message { transaction_id, read_only: false, message_type: MessageType::Response(response) }
}

fn peers_response(n: u8, transaction_id: u16, values: Vec<SocketAddr>) -> Message {
    response(
        transaction_id,
        ResponseSpecific::GetPeers(GetPeersResponseArguments {
            responder_id: id(n),
            token: vec![n, n],
            values,
            nodes: None,
        }),
    )
}

fn found_node_response(n: u8, transaction_id: u16, nodes: &[u8]) -> Message {
    response(
        transaction_id,
        ResponseSpecific::FindNode(FindNodeResponseArguments {
            responder_id: id(n),
            nodes: nodes.iter().map(|m| Node::new(id(*m), addr(*m), START)).collect(),
        }),
    )
}

fn tick(rpc: &mut Rpc, incoming: Option<(Message, SocketAddr)>, now: u64) {
    rpc.tick([9; 20], &vec![], incoming, now);
}

fn destinations(sent: &[Datagram]) -> Vec<SocketAddr> {
    sent.iter().map(|d| d.to).collect()
}

fn peer_of(event: &Event) -> (u64, SocketAddr) {
    match event {
        Event::Response {
            to,
            message: ResponseMessage::ResponseValue(ResponseValue::Peer(found)),
        } => (to.channel, found.peer),
        other => panic!("not a peer: {:?}", other),
    }
}

#[test]
fn first_step_looks_up_the_own_identifier() {
    let mut rpc = node();
    assert!(!rpc.refresh_due(START));
    assert!(rpc.refresh_due(START + 1));
    let resolved = vec![Some(vec![addr(2), addr(3)]), None, Some(vec![addr(2)]), Some(vec![])];
    rpc.tick([9; 20], &resolved, None, START + 1);
    let sent = rpc.take_outgoing();
    assert_eq!(destinations(&sent), vec![addr(2), addr(3)]);
    for (i, datagram) in sent.iter().enumerate() {
        assert_eq!(datagram.message.transaction_id, i as u16);
        assert!(!datagram.message.read_only);
        match &datagram.message.message_type {
            MessageType::Request(RequestSpecific::FindNode(arguments)) => {
                assert_eq!(arguments.target, id(1));
                assert_eq!(arguments.requester_id, id(1));
            }
            other => panic!("not a find_node request: {:?}", other),
        }
    }
    assert_eq!(rpc.take_events().len(), 0);
    assert_eq!(rpc.take_outgoing().len(), 0);
}

#[test]
fn a_refresh_comes_once_in_fifteen_minutes() {
    let mut rpc = node();
    rpc.tick([9; 20], &found(&[2]), None, START + MS);
    assert_eq!(rpc.take_outgoing().len(), 1);
    assert!(!rpc.refresh_due(START + 900_001 * MS));
    assert!(rpc.refresh_due(START + 900_001 * MS + 1));
    tick(&mut rpc, None, START + 900_001 * MS);
    assert_eq!(rpc.take_outgoing().len(), 0);
}

#[test]
fn a_step_without_refresh_does_not_look_at_the_hosts() {
    let mut one = node();
    let mut other = node();
    one.tick([9; 20], &found(&[2]), None, START);
    other.tick([9; 20], &found(&[3, 4]), None, START);
    assert_eq!(one.take_outgoing().len(), 0);
    assert_eq!(other.take_outgoing().len(), 0);
}

#[test]
fn bootstrap_failure_is_told() {
    let mut rpc = node();
    rpc.tick([9; 20], &found(&[2]), None, START + MS);
    tick(&mut rpc, None, START + 2_001 * MS - 1);
    tick(&mut rpc, None, START + 2_001 * MS);
    assert_eq!(rpc.take_events().len(), 0);
    tick(&mut rpc, None, START + 2_002 * MS);
    let events = rpc.take_events();
    assert_eq!(events.len(), 1);
    assert!(matches!(events[0], Event::BootstrapFailed));
}

#[test]
fn bootstrap_success_is_told_with_the_size_of_the_table() {
    let mut rpc = node();
    rpc.tick([9; 20], &found(&[2]), None, START + MS);
    tick(&mut rpc, Some((found_node_response(2, 0, &[]), addr(2))), START + 10 * MS);
    assert_eq!(rpc.routing_table_size(), 1);
    assert_eq!(rpc.routing_table().to_vec()[0].id, id(2));
    tick(&mut rpc, None, START + 11 * MS);
    let events = rpc.take_events();
    assert_eq!(events.len(), 1);
    assert!(matches!(events[0], Event::Bootstrapped { table_size: 1 }));
}

#[test]
fn a_query_walks_to_the_nodes_that_it_is_told_of() {
    let mut rpc = node();
    rpc.tick([9; 20], &found(&[2]), None, START + MS);
    rpc.take_outgoing();
    tick(&mut rpc, Some((found_node_response(2, 0, &[5, 3, 2]), addr(2))), START + 10 * MS);
    tick(&mut rpc, None, START + 11 * MS);
    // Nearest to the own identifier first, and the node that answered is not asked again.
    assert_eq!(destinations(&rpc.take_outgoing()), vec![addr(3), addr(5)]);
    tick(&mut rpc, None, START + 12 * MS);
    assert_eq!(rpc.take_outgoing().len(), 0);
}

#[test]
fn asking_again_joins_the_query_under_way() {
    let mut rpc = settled();
    assert!(rpc.needs_bootstrap(&id(40)));
    rpc.get_peers(id(40), sender(1), &found(&[2, 3]), START + MS);
    assert!(!rpc.needs_bootstrap(&id(40)));
    assert_eq!(destinations(&rpc.take_outgoing()), vec![addr(2), addr(3)]);
    let answer = peers_response(2, 0, vec![addr(21), addr(22)]);
    tick(&mut rpc, Some((answer, addr(2))), START + 10 * MS);
    let told: Vec<(u64, SocketAddr)> = rpc.take_events().iter().map(peer_of).collect();
    assert_eq!(told, vec![(1, addr(21)), (1, addr(22))]);

    let before = rpc.take_outgoing().len();
    assert_eq!(before, 0);
    rpc.get_peers(id(40), sender(2), &found(&[4]), START + 11 * MS);
    assert_eq!(rpc.take_outgoing().len(), 0);
    let told: Vec<(u64, SocketAddr)> = rpc.take_events().iter().map(peer_of).collect();
    assert_eq!(told, vec![(2, addr(21)), (2, addr(22))]);

    tick(&mut rpc, Some((peers_response(3, 1, vec![addr(23)]), addr(3))), START + 12 * MS);
    let told: Vec<(u64, SocketAddr)> = rpc.take_events().iter().map(peer_of).collect();
    assert_eq!(told, vec![(1, addr(23)), (2, addr(23))]);

    tick(&mut rpc, None, START + 13 * MS);
    let events = rpc.take_events();
    assert_eq!(events.len(), 2);
    for (i, event) in events.iter().enumerate() {
        match event {
            Event::Response { to, message: ResponseMessage::ResponseDone(done) } => {
                assert_eq!(to.channel, i as u64 + 1);
                assert_eq!(done.visited, 2);
                let ids: Vec<Id> = done.closest_nodes.iter().map(|n| n.id).collect();
                assert_eq!(ids, vec![id(2), id(3)]);
                assert_eq!(done.closest_nodes[0].token, Some(vec![2, 2]));
                assert_eq!(done.closest_nodes[1].token, Some(vec![3, 3]));
            }
            other => panic!("not the end: {:?}", other),
        }
    }
    tick(&mut rpc, None, START + 14 * MS);
    assert_eq!(rpc.take_events().len(), 0);
}

#[test]
fn a_finished_query_can_be_asked_for_anew() {
    let mut rpc = settled();
    rpc.get_peers(id(40), sender(1), &found(&[2]), START + MS);
    rpc.take_outgoing();
    tick(&mut rpc, Some((peers_response(2, 0, vec![addr(21)]), addr(2))), START + 10 * MS);
    tick(&mut rpc, None, START + 11 * MS);
    rpc.take_events();
    rpc.get_peers(id(40), sender(2), &found(&[2]), START + 12 * MS);
    assert_eq!(rpc.take_outgoing().len(), 1);
    assert_eq!(rpc.take_events().len(), 0);
}

#[test]
fn a_query_starts_from_the_table_and_from_earlier_results() {
    let mut rpc = settled().with_bootstrap(vec![]);
    // Nothing is known: the query asks nobody and is over at the next step.
    rpc.get_peers(id(40), sender(1), &vec![], START + MS);
    assert_eq!(rpc.take_outgoing().len(), 0);
    tick(&mut rpc, None, START + 2 * MS);
    assert!(matches!(
        rpc.take_events()[0],
        Event::Response { message: ResponseMessage::ResponseDone(_), .. }
    ));

    let ping = Message {
        transaction_id: 3,
        read_only: false,
        message_type: MessageType::Request(RequestSpecific::Ping(PingRequestArguments {
            requester_id: id(5),
        })),
    };
    tick(&mut rpc, Some((ping, addr(5))), START + 3 * MS);
    rpc.take_outgoing();
    assert_eq!(rpc.routing_table_size(), 1);
    assert!(!rpc.needs_bootstrap(&id(40)));
    rpc.get_peers(id(40), sender(2), &vec![], START + 4 * MS);
    let sent = rpc.take_outgoing();
    assert_eq!(destinations(&sent), vec![addr(5)]);
    // The node answers with a token and a nearer node, which answers with a token too.
    let tid = sent[0].message.transaction_id;
    let answer = response(
        tid,
        ResponseSpecific::NoValues(NoValuesResponseArguments {
            responder_id: id(5),
            token: vec![5],
            nodes: Some(vec![Node::new(id(41), addr(41), START)]),
        }),
    );
    tick(&mut rpc, Some((answer, addr(5))), START + 5 * MS);
    tick(&mut rpc, None, START + 6 * MS);
    let sent = rpc.take_outgoing();
    assert_eq!(destinations(&sent), vec![addr(41)]);
    let tid = sent[0].message.transaction_id;
    let mut answer = peers_response(41, tid, vec![addr(21)]);
    // A read-only node does not enter the routing table, and its answer is dropped.
    answer.read_only = true;
    tick(&mut rpc, Some((answer, addr(41))), START + 7 * MS);
    assert_eq!(rpc.routing_table_size(), 1);
    assert_eq!(rpc.take_events().len(), 0);
    // The request is no longer under way, so the query gives it up and is over.
    tick(&mut rpc, None, START + 8 * MS);
    match &rpc.take_events()[0] {
        Event::Response { message: ResponseMessage::ResponseDone(done), .. } => {
            assert_eq!(done.visited, 2);
            assert_eq!(done.closest_nodes.len(), 1);
            assert_eq!(done.closest_nodes[0].id, id(5));
        }
        other => panic!("not the end: {:?}", other),
    }
}

#[test]
fn results_are_kept_for_fifteen_minutes() {
    let kept = [(900_000 * MS, vec![addr(2), addr(3), addr(6)]), (900_000 * MS + 1, vec![addr(6)])];
    for (later, expected) in kept {
        let mut rpc = settled();
        // Nodes 2 and 3 answer with a token.
        rpc.get_peers(id(40), sender(1), &found(&[2, 3]), START + MS);
        tick(&mut rpc, Some((peers_response(2, 0, vec![addr(21)]), addr(2))), START + 2 * MS);
        tick(&mut rpc, Some((peers_response(3, 1, vec![addr(21)]), addr(3))), START + 3 * MS);
        tick(&mut rpc, None, START + 4 * MS);
        // By then both are stale and leave the routing table, and node 6 enters it.
        let mut rpc = rpc.with_bootstrap(vec![]);
        let now = START + 4 * MS + later;
        let ping = Message {
            transaction_id: 3,
            read_only: false,
            message_type: MessageType::Request(RequestSpecific::Ping(PingRequestArguments {
                requester_id: id(6),
            })),
        };
        tick(&mut rpc, Some((ping, addr(6))), now);
        assert_eq!(rpc.routing_table_size(), 1);
        rpc.take_outgoing();
        rpc.get_peers(id(40), sender(2), &vec![], now);
        assert_eq!(destinations(&rpc.take_outgoing()), expected);
    }
}

#[test]
fn answers_that_nobody_waits_for_change_nothing() {
    let mut rpc = settled();
    rpc.get_peers(id(40), sender(1), &found(&[2]), START + MS);
    rpc.take_outgoing();
    // From another address, from port 0, and under another transaction.
    tick(&mut rpc, Some((peers_response(2, 0, vec![addr(21)]), addr(3))), START + 2 * MS);
    let port_zero = SocketAddr::new(addr(2).ip, 0);
    tick(&mut rpc, Some((peers_response(2, 0, vec![addr(21)]), port_zero)), START + 3 * MS);
    tick(&mut rpc, Some((peers_response(2, 7, vec![addr(21)]), addr(2))), START + 4 * MS);
    assert_eq!(rpc.take_events().len(), 0);
    assert_eq!(rpc.routing_table_size(), 0);
    // The one that is waited for counts once.
    tick(&mut rpc, Some((peers_response(2, 0, vec![addr(21)]), addr(2))), START + 5 * MS);
    tick(&mut rpc, Some((peers_response(2, 0, vec![addr(22)]), addr(2))), START + 6 * MS);
    let events = rpc.take_events();
    assert_eq!(events.len(), 2);
    assert_eq!(peer_of(&events[0]), (1, addr(21)));
    assert!(matches!(
        events[1],
        Event::Response { message: ResponseMessage::ResponseDone(_), .. }
    ));
}

#[test]
fn unanswered_requests_time_out() {
    let mut rpc = settled().with_request_timeout(100);
    rpc.get_peers(id(40), sender(1), &found(&[2]), START);
    tick(&mut rpc, None, START + 100 * MS - 1);
    tick(&mut rpc, None, START + 100 * MS);
    assert_eq!(rpc.take_events().len(), 0);
    tick(&mut rpc, None, START + 101 * MS);
    match &rpc.take_events()[0] {
        Event::Response { to, message: ResponseMessage::ResponseDone(done) } => {
            assert_eq!(to.channel, 1);
            assert_eq!(done.visited, 1);
            assert_eq!(done.closest_nodes.len(), 0);
        }
        other => panic!("not the end: {:?}", other),
    }
    tick(&mut rpc, Some((peers_response(2, 0, vec![addr(21)]), addr(2))), START + 102 * MS);
    assert_eq!(rpc.take_events().len(), 0);
}

#[test]
fn errors_are_told() {
    let mut rpc = settled();
    rpc.get_peers(id(40), sender(1), &found(&[2]), START + MS);
    rpc.take_outgoing();
    let error = Message {
        transaction_id: 0,
        read_only: false,
        message_type: MessageType::Error(ErrorSpecific {
            code: 201,
            description: "Generic Error".to_string(),
        }),
    };
    tick(&mut rpc, Some((error, addr(2))), START + 2 * MS);
    let events = rpc.take_events();
    assert_eq!(events.len(), 1);
    match &events[0] {
        Event::ErrorResponse { error } => {
            assert_eq!(error.code, 201);
            assert_eq!(error.description, "Generic Error");
        }
        other => panic!("not an error: {:?}", other),
    }
}

#[test]
fn the_table_is_pinged_every_five_minutes() {
    let mut rpc = node();
    let ping = |n: u8| Message {
        transaction_id: 1,
        read_only: false,
        message_type: MessageType::Request(RequestSpecific::Ping(PingRequestArguments {
            requester_id: id(n),
        })),
    };
    tick(&mut rpc, Some((ping(2), addr(2))), START + MS);
    tick(&mut rpc, Some((ping(3), addr(3))), START + 295_000 * MS);
    rpc.take_outgoing();
    tick(&mut rpc, None, START + 300_000 * MS);
    assert_eq!(rpc.take_outgoing().len(), 0);
    tick(&mut rpc, None, START + 300_000 * MS + 1);
    let sent = rpc.take_outgoing();
    // Node 3 was heard of five seconds ago.
    assert_eq!(destinations(&sent), vec![addr(2)]);
    assert!(matches!(
        sent[0].message.message_type,
        MessageType::Request(RequestSpecific::Ping(PingRequestArguments { .. }))
    ));
    tick(&mut rpc, None, START + 600_000 * MS + 1);
    assert_eq!(rpc.take_outgoing().len(), 0);
    tick(&mut rpc, None, START + 600_000 * MS + 2);
    assert_eq!(destinations(&rpc.take_outgoing()), vec![addr(2), addr(3)]);
    // After fifteen minutes without a word node 2 is stale and leaves, node 3 is not yet.
    tick(&mut rpc, None, START + 901_000 * MS);
    assert_eq!(destinations(&rpc.take_outgoing()), vec![addr(3)]);
    assert_eq!(rpc.routing_table_size(), 1);
    assert_eq!(rpc.routing_table().to_vec()[0].id, id(3));
}

#[test]
fn a_pong_is_noted_in_the_table() {
    let mut rpc = settled();
    rpc.get_peers(id(40), sender(1), &found(&[2]), START + MS);
    rpc.take_outgoing();
    let pong = response(
        0,
        ResponseSpecific::Ping(PingResponseArguments { responder_id: id(2) }),
    );
    tick(&mut rpc, Some((pong, addr(2))), START + 2 * MS);
    assert_eq!(rpc.routing_table_size(), 1);
}

#[test]
fn options_are_kept() {
    let rpc = node();
    assert_eq!(rpc.local_addr(), addr(1));
    assert_eq!(
        rpc.bootstrap().clone(),
        vec![
            "router.bittorrent.com:6881".to_string(),
            "dht.transmissionbt.com:6881".to_string(),
            "dht.libtorrent.org:25401".to_string(),
            "dht.anacrolix.link:42069".to_string(),
        ]
    );
    let bound: Result<SocketAddr, ()> = Ok(addr(9));
    let mut rpc = rpc
        .with_read_only(true)
        .with_port(bound)
        .unwrap()
        .with_id(id(8))
        .with_bootstrap(vec!["example.org:1".to_string()]);
    assert_eq!(rpc.local_addr(), addr(9));
    assert_eq!(rpc.bootstrap().len(), 1);
    rpc.tick([9; 20], &found(&[2]), None, START + MS);
    let sent = rpc.take_outgoing();
    // The new socket does not remember that the node was read-only.
    assert!(!sent[0].message.read_only);
    match &sent[0].message.message_type {
        MessageType::Request(RequestSpecific::FindNode(arguments)) => {
            assert_eq!(arguments.target, id(8));
            assert_eq!(arguments.requester_id, id(8));
        }
        other => panic!("not a find_node request: {:?}", other),
    }
    let mut rpc = rpc.with_read_only(true);
    rpc.get_peers(id(40), sender(1), &found(&[3]), START + 2 * MS);
    assert!(rpc.take_outgoing()[0].message.read_only);
    let mut rpc = rpc.with_custom_request_handler(RequestSender { channel: 1 });
    rpc.get_peers(id(41), sender(1), &found(&[3]), START + 2 * MS);
    assert!(!rpc.take_outgoing()[0].message.read_only);
}

#[test]
fn failing_to_bind_fails() {
    let failed: Result<SocketAddr, u8> = Err(98);
    assert_eq!(Rpc::new(id(1), [7; 20], [8; 20], failed, START).err(), Some(98));
    let failed: Result<SocketAddr, u8> = Err(99);
    assert_eq!(node().with_port(failed).err(), Some(99));
}

#[test]
fn a_custom_handler_gets_the_requests() {
    let mut rpc = node().with_custom_request_handler(RequestSender { channel: 77 });
    let ping = Message {
        transaction_id: 12,
        read_only: false,
        message_type: MessageType::Request(RequestSpecific::Ping(PingRequestArguments {
            requester_id: id(2),
        })),
    };
    tick(&mut rpc, Some((ping, addr(2))), START);
    assert_eq!(rpc.take_outgoing().len(), 0);
    assert_eq!(rpc.routing_table_size(), 1);
    let events = rpc.take_events();
    assert_eq!(events.len(), 1);
    match &events[0] {
        Event::Request { to, from, transaction_id, request } => {
            assert_eq!(to.channel, 77);
            assert_eq!(*from, addr(2));
            assert_eq!(*transaction_id, 12);
            assert!(matches!(request, RequestSpecific::Ping(_)));
            rpc.handle_request(*from, *transaction_id, request);
        }
        other => panic!("not a request: {:?}", other),
    }
    let sent = rpc.take_outgoing();
    assert_eq!(destinations(&sent), vec![addr(2)]);
    assert_eq!(sent[0].message.transaction_id, 12);
}

#[test]
fn requests_may_wait_for_ever() {
    let mut rpc = settled().with_request_timeout(u64::MAX);
    rpc.get_peers(id(40), sender(1), &found(&[2]), START);
    rpc.tick([9; 20], &vec![], None, u64::MAX);
    rpc.tick([9; 20], &vec![], None, u64::MAX);
    let events = rpc.take_events();
    assert!(!events.iter().any(|event| matches!(event, Event::Response { .. })));
}

#[test]
fn a_step_can_be_made_in_two_parts() {
    let mut rpc = settled();
    rpc.get_peers(id(40), sender(1), &found(&[2]), START + MS);
    rpc.take_outgoing();
    rpc.receive(Some((peers_response(2, 0, vec![addr(21)]), addr(2))), START + 2 * MS);
    let events = rpc.take_events();
    assert_eq!(events.len(), 1);
    assert_eq!(peer_of(&events[0]), (1, addr(21)));
    rpc.receive(None, START + 3 * MS);
    assert_eq!(rpc.take_events().len(), 0);
    rpc.maintain([9; 20], &vec![], START + 4 * MS);
    assert!(matches!(
        rpc.take_events()[..],
        [Event::Response { message: ResponseMessage::ResponseDone(_), .. }]
    ));
}
