use mainline::address::{IpAddr, SocketAddr};
use mainline::clock::elapsed;
use mainline::id::Id;
use mainline::messages::{PingRequestArguments, RequestSpecific};
use mainline::node::Node;
use mainline::routing_table::RoutingTable;
use mainline::socket::KrpcSocket;

fn addr(n: u8) -> SocketAddr {
    SocketAddr::new(IpAddr::V4(0x0a00_0000 + n as u32), 6881)
}

fn id(first: u8, last: u8) -> Id {
    let mut bytes = [0; 20];
    bytes[0] = first;
    bytes[19] = last;
    Id::from_bytes(&bytes)
}

fn node(first: u8, last: u8, now: u64) -> Node {
    Node::new(id(first, last), addr(last), now)
}

#[test]
fn distances_are_those_of_the_highest_bit_that_differs() {
    assert_eq!(id(0, 0).distance(&id(0, 0)), 0);
    assert_eq!(id(0, 0).distance(&id(0, 1)), 1);
    assert_eq!(id(0, 4).distance(&id(0, 7)), 2);
    assert_eq!(id(0, 0).distance(&id(1, 0)), 153);
    assert_eq!(id(128, 3).distance(&id(0, 3)), 160);
    assert_eq!(id(0, 3).distance(&id(128, 3)), 160);
    let mut bytes = [0; 20];
    bytes[15] = 1;
    assert_eq!(id(0, 0).distance(&Id::from_bytes(&bytes)), 33);
}

#[test]
fn nearness_goes_by_the_bits_that_differ() {
    assert!(id(0, 4).nearer(&id(0, 8), &id(0, 0)));
    assert!(!id(0, 8).nearer(&id(0, 4), &id(0, 0)));
    assert!(id(0, 8).nearer(&id(0, 4), &id(0, 15)));
    assert!(!id(0, 8).nearer(&id(0, 8), &id(0, 15)));
    assert!(id(0, 255).nearer(&id(1, 0), &id(0, 0)));
}

#[test]
fn a_bucket_holds_twenty_nodes() {
    let mut table = RoutingTable::new(id(0, 0));
    for n in 0..25u8 {
        table.add(node(128, n, 0), 0);
    }
    assert_eq!(table.size(), 20);
    table.add(node(64, 100, 0), 0);
    assert_eq!(table.size(), 21);
    // The oldest of a full bucket leaves once it is stale.
    table.add(node(128, 101, 900_000_000_000), 900_000_000_000);
    assert_eq!(table.size(), 21);
    assert_eq!(table.to_vec()[0].id, id(128, 0));
    table.add(node(128, 101, 900_000_000_001), 900_000_000_001);
    assert_eq!(table.size(), 21);
    assert_eq!(table.to_vec()[0].id, id(128, 1));
    assert_eq!(table.to_vec()[20].id, id(128, 101));
}

#[test]
fn a_table_holds_nodes_once_and_not_its_own() {
    let mut table = RoutingTable::new(id(0, 0));
    assert!(table.is_empty());
    table.add(node(0, 0, 0), 0);
    assert!(table.is_empty());
    table.add(node(0, 1, 0), 0);
    table.add(node(0, 2, 0), 0);
    table.add(node(0, 1, 5), 5);
    assert_eq!(table.size(), 2);
    assert_eq!(table.to_vec()[1].id, id(0, 1));
    assert_eq!(table.to_vec()[1].last_seen, 5);
    // The same identifier from another address is not believed.
    table.add(Node::new(id(0, 1), addr(99), 9), 9);
    assert_eq!(table.size(), 2);
    assert_eq!(table.to_vec()[1].address, addr(1));
    table.remove(&id(0, 1));
    table.remove(&id(0, 3));
    assert_eq!(table.size(), 1);
    assert_eq!(table.clone().to_vec()[0].id, id(0, 2));
}

#[test]
fn a_look_up_gives_the_twenty_nearest() {
    let mut table = RoutingTable::new(id(255, 0));
    for n in [200u8, 3, 77, 1, 2] {
        table.add(node(0, n, 0), 0);
    }
    let ids: Vec<Id> = table.closest(&id(0, 0)).iter().map(|n| n.id).collect();
    assert_eq!(ids, vec![id(0, 1), id(0, 2), id(0, 3), id(0, 77), id(0, 200)]);
    for n in 0..20u8 {
        table.add(node(254, n, 0), 0);
    }
    let near = table.closest(&id(0, 0));
    assert_eq!(table.size(), 25);
    assert_eq!(near.len(), 20);
    assert_eq!(near[4].id, id(0, 200));
    assert_eq!(near[5].id, id(254, 0));
    assert_eq!(near[19].id, id(254, 14));
}

#[test]
fn nodes_grow_stale() {
    let n = node(0, 1, 1_000);
    assert!(!n.should_ping(10_000_001_000));
    assert!(n.should_ping(10_000_001_001));
    assert!(!n.is_stale(900_000_001_000));
    assert!(n.is_stale(900_000_001_001));
    assert!(!n.is_stale(0));
}

#[test]
fn time_does_not_go_back() {
    assert_eq!(elapsed(5, 7), 2);
    assert_eq!(elapsed(7, 5), 0);
}

#[test]
fn transactions_wrap_around() {
    let mut socket = KrpcSocket::bound(addr(1));
    let ping = || RequestSpecific::Ping(PingRequestArguments { requester_id: id(0, 1) });
    for n in 0..=u16::MAX {
        assert_eq!(socket.request(addr(2), ping(), 0), n);
    }
    assert_eq!(socket.request(addr(2), ping(), 1), 0);
    assert!(socket.awaits(7));
    socket.forget_timed_out(2_000_000_000);
    assert!(socket.awaits(0));
    assert!(!socket.awaits(7));
    socket.forget_timed_out(2_000_000_001);
    assert!(!socket.awaits(0));
    assert_eq!(socket.take_outgoing().len(), 65_537);
}
