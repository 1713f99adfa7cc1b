use bytes::Bytes;
use ed25519_dalek::{Signer, SigningKey};
use mainline::address::{IpAddr, SocketAddr};
use mainline::id::Id;
use mainline::item::{encode_signable, hash_immutable, MutableItem};
use mainline::node::Node;
use mainline::response::{Event, ResponseMessage, ResponseSender, ResponseValue};
use mainline::rpc::Rpc;

const MS: u64 = 1_000_000;

const START: u64 = 1_000_000 * MS;

fn id(n: u8) -> Id {
    Id::from_bytes(&[n; 20])
}

fn addr(n: usize) -> SocketAddr {
    SocketAddr::new(IpAddr::V4(0x0a00_0000 + n as u32), 6881)
}

fn sender(channel: u64) -> ResponseSender {
    ResponseSender { channel }
}

/// Some nodes, and whom they find the network through: the first of them.
struct Network {
    nodes: Vec<Rpc>,
    now: u64,
}

impl Network {
    fn new(size: usize) -> Network {
        let mut network = Network { nodes: vec![], now: START };
        for n in 0..size {
            let bound: Result<SocketAddr, ()> = Ok(addr(n));
            let secret = [n as u8; 20];
            let rpc = Rpc::new(id(n as u8 + 1), secret, secret, bound, START).unwrap();
            network.nodes.push(rpc.with_bootstrap(vec!["first".to_string()]));
        }
        network
    }

    fn hosts() -> Vec<Option<Vec<SocketAddr>>> {
        vec![Some(vec![addr(0)])]
    }

    /// Makes steps of all nodes until nothing is under way.
    fn run(&mut self) {
        for _ in 0..60 {
            self.now += MS;
            let mut sent = vec![];
            for (n, node) in self.nodes.iter_mut().enumerate() {
                node.tick([99; 20], &Network::hosts(), None, self.now);
                sent.extend(node.take_outgoing().into_iter().map(|d| (addr(n), d)));
            }
            while !sent.is_empty() {
                let (from, datagram) = sent.remove(0);
                for (n, node) in self.nodes.iter_mut().enumerate() {
                    if addr(n) == datagram.to {
                        let incoming = Some((datagram.message, from));
                        node.tick([99; 20], &Network::hosts(), incoming, self.now);
                        sent.extend(node.take_outgoing().into_iter().map(|d| (addr(n), d)));
                        break;
                    }
                }
            }
        }
    }

    /// What a node told one of its receivers.
    fn told(&mut self, n: usize, channel: u64) -> Vec<ResponseMessage> {
        let mut messages = vec![];
        for event in self.nodes[n].take_events() {
            if let Event::Response { to, message } = event {
                if to.channel == channel {
                    messages.push(message);
                }
            }
        }
        messages
    }
}

fn closest(messages: Vec<ResponseMessage>) -> Vec<Node> {
    for message in messages {
        if let ResponseMessage::ResponseDone(done) = message {
            return done.closest_nodes;
        }
    }
    panic!("the query did not end");
}

fn stored_at(messages: Vec<ResponseMessage>) -> usize {
    for message in messages {
        if let ResponseMessage::StoreQueryMetdata(stored) = message {
            return stored.stored_at.len();
        }
    }
    panic!("the store query did not end");
}

#[test]
fn nodes_find_each_other() {
    let mut network = Network::new(6);
    network.run();
    for node in &network.nodes {
        assert!(node.routing_table_size() >= 1);
    }
    assert_eq!(network.nodes[0].routing_table_size(), 5);
}

#[test]
fn an_announced_peer_is_found_by_another_node() {
    for port in [None, Some(8080)] {
        let mut network = Network::new(6);
        network.run();
        let now = network.now;
        network.nodes[1].get_peers(id(40), sender(1), &Network::hosts(), now);
        network.run();
        let nodes = closest(network.told(1, 1));
        let count = nodes.len();
        assert!(count >= 2);
        let now = network.now;
        network.nodes[1].announce_peer(id(40), nodes, port, sender(2), now);
        network.run();
        assert_eq!(stored_at(network.told(1, 2)), count);
        let now = network.now;
        network.nodes[4].get_peers(id(40), sender(3), &Network::hosts(), now);
        network.run();
        let expected = match port {
            Some(port) => SocketAddr::new(addr(1).ip, port),
            None => addr(1),
        };
        let mut found = 0;
        for message in network.told(4, 3) {
            if let ResponseMessage::ResponseValue(ResponseValue::Peer(peer)) = message {
                assert_eq!(peer.peer, expected);
                found += 1;
            }
        }
        assert!(found >= 1);
    }
}

#[test]
fn an_immutable_value_is_found_by_another_node() {
    let mut network = Network::new(5);
    network.run();
    let value = b"a value that never changes".to_vec();
    let target = hash_immutable(&value);
    let now = network.now;
    network.nodes[1].get_immutable(target, sender(1), &Network::hosts(), now);
    network.run();
    let nodes = closest(network.told(1, 1));
    let count = nodes.len();
    let now = network.now;
    network.nodes[1].put_immutable(target, Bytes::from(value.clone()), nodes, sender(2), now);
    network.run();
    assert_eq!(stored_at(network.told(1, 2)), count);
    let now = network.now;
    network.nodes[3].get_immutable(target, sender(3), &Network::hosts(), now);
    network.run();
    let mut found = 0;
    for message in network.told(3, 3) {
        if let ResponseMessage::ResponseValue(ResponseValue::Immutable(response)) = message {
            assert_eq!(response.value, Bytes::from(value.clone()));
            found += 1;
        }
    }
    assert!(found >= 1);
}

#[test]
fn a_mutable_item_is_found_by_another_node() {
    let mut network = Network::new(5);
    network.run();
    let signer = SigningKey::from_bytes(&[56; 32]);
    let salt = Some(Bytes::from_static(b"salt"));
    let value = Bytes::from_static(b"a value that may change");
    let signature = signer.sign(&encode_signable(1000, &value, &salt));
    let item = MutableItem::new_signed_unchecked(
        signer.verifying_key().to_bytes().to_vec(),
        signature.to_bytes().to_vec(),
        value.clone(),
        1000,
        salt.clone(),
    );
    let target = *item.target();
    let now = network.now;
    network.nodes[2].get_mutable(target, salt.clone(), sender(1), &Network::hosts(), now);
    network.run();
    let nodes = closest(network.told(2, 1));
    let count = nodes.len();
    let now = network.now;
    network.nodes[2].put_mutable(item, nodes, sender(2), now);
    network.run();
    assert_eq!(stored_at(network.told(2, 2)), count);
    let now = network.now;
    network.nodes[3].get_mutable(target, salt.clone(), sender(3), &Network::hosts(), now);
    network.run();
    let mut found = 0;
    for message in network.told(3, 3) {
        if let ResponseMessage::ResponseValue(ResponseValue::Mutable(response)) = message {
            assert_eq!(*response.item.target(), target);
            assert_eq!(*response.item.value(), value);
            assert_eq!(*response.item.salt(), salt);
            assert_eq!(*response.item.seq(), 1000);
            found += 1;
        }
    }
    assert!(found >= 1);
}
