use mainline::address::{IpAddr, SocketAddr};
use mainline::id::Id;
use mainline::item::{encode_signable, hash_immutable, MutableItem};
use mainline::messages::{
    AnnouncePeerRequestArguments, FindNodeRequestArguments, GetPeersRequestArguments,
    GetValueRequestArguments, Message, MessageType, PingRequestArguments, PingResponseArguments,
    PutImmutableRequestArguments, PutMutableRequestArguments, RequestSpecific, ResponseSpecific,
};
use mainline::peers::{Peer, PeersStore};
use mainline::rpc::server::{check_immutable, check_mutable, check_put};
use mainline::rpc::Rpc;
use mainline::tokens::Tokens;

use bytes::Bytes;
use ed25519_dalek::{Signer, SigningKey};

const MS: u64 = 1_000_000;

const START: u64 = 1_000_000 * MS;

fn id(n: u8) -> Id {
    Id::from_bytes(&[n; 20])
}

fn addr(n: u8) -> SocketAddr {
    SocketAddr::new(IpAddr::V4(0x0a00_0000 + n as u32), 6881)
}

fn node() -> Rpc {
    let bound: Result<SocketAddr, ()> = Ok(addr(1));
    Rpc::new(id(1), [7; 20], [8; 20], bound, START).unwrap()
}

fn ask(rpc: &mut Rpc, n: u8, request: &RequestSpecific) -> MessageType {
    rpc.handle_request(addr(n), n as u16, request);
    let mut sent = rpc.take_outgoing();
    assert_eq!(sent.len(), 1);
    let reply = sent.remove(0);
    assert_eq!(reply.to, addr(n));
    assert_eq!(reply.message.transaction_id, n as u16);
    assert!(!reply.message.read_only);
    reply.message.message_type
}

fn error_of(reply: MessageType) -> (i32, String) {
    match reply {
        MessageType::Error(error) => (error.code, error.description),
        other => panic!("not an error: {:?}", other),
    }
}

fn acknowledged(reply: MessageType) {
    match reply {
        MessageType::Response(ResponseSpecific::Ping(PingResponseArguments { responder_id })) => {
            assert_eq!(responder_id, id(1));
        }
        other => panic!("not acknowledged: {:?}", other),
    }
}

fn token(rpc: &mut Rpc, n: u8) -> Vec<u8> {
    let request = RequestSpecific::GetPeers(GetPeersRequestArguments {
        requester_id: id(n),
        info_hash: id(200),
    });
    match ask(rpc, n, &request) {
        MessageType::Response(ResponseSpecific::NoValues(arguments)) => arguments.token,
        other => panic!("not a response without values: {:?}", other),
    }
}

fn get_value(rpc: &mut Rpc, n: u8, target: Id, seq: Option<i64>) -> MessageType {
    let request = RequestSpecific::GetValue(GetValueRequestArguments {
        requester_id: id(n),
        target,
        seq,
        salt: None,
    });
    ask(rpc, n, &request)
}

fn put_immutable(rpc: &mut Rpc, n: u8, token: Vec<u8>, target: Id, v: Vec<u8>) -> MessageType {
    let request = RequestSpecific::PutImmutable(PutImmutableRequestArguments {
        requester_id: id(n),
        target,
        token,
        v,
    });
    ask(rpc, n, &request)
}

fn signed(value: &[u8], seq: i64, salt: Option<&[u8]>) -> PutMutableRequestArguments {
    let signer = SigningKey::from_bytes(&[56; 32]);
    let value = Bytes::copy_from_slice(value);
    let salt = salt.map(Bytes::copy_from_slice);
    let signature = signer.sign(&encode_signable(seq, &value, &salt));
    let item = MutableItem::new_signed_unchecked(
        signer.verifying_key().to_bytes().to_vec(),
        signature.to_bytes().to_vec(),
        value,
        seq,
        salt,
    );
    PutMutableRequestArguments {
        requester_id: id(3),
        target: *item.target(),
        token: vec![],
        v: item.value().to_vec(),
        k: item.key().clone(),
        seq: *item.seq(),
        sig: item.signature().clone(),
        salt: item.salt().as_ref().map(|s| s.to_vec()),
        cas: None,
    }
}

fn put_mutable(rpc: &mut Rpc, n: u8, arguments: PutMutableRequestArguments) -> MessageType {
    let token = token(rpc, n);
    let arguments = PutMutableRequestArguments { token, ..arguments };
    ask(rpc, n, &RequestSpecific::PutMutable(arguments))
}

#[test]
fn pings_are_answered() {
    let request = RequestSpecific::Ping(PingRequestArguments { requester_id: id(2) });
    acknowledged(ask(&mut node(), 2, &request));
}

#[test]
fn the_nearest_nodes_are_named() {
    let mut rpc = node();
    for n in [9u8, 4, 6] {
        let ping = Message {
            transaction_id: 1,
            read_only: false,
            message_type: MessageType::Request(RequestSpecific::Ping(PingRequestArguments {
                requester_id: id(n),
            })),
        };
        rpc.tick([9; 20], &vec![], Some((ping, addr(n))), START);
    }
    rpc.take_outgoing();
    let request = RequestSpecific::FindNode(FindNodeRequestArguments {
        requester_id: id(2),
        target: id(5),
    });
    match ask(&mut rpc, 2, &request) {
        MessageType::Response(ResponseSpecific::FindNode(arguments)) => {
            assert_eq!(arguments.responder_id, id(1));
            let ids: Vec<Id> = arguments.nodes.iter().map(|n| n.id).collect();
            assert_eq!(ids, vec![id(4), id(6), id(9)]);
        }
        other => panic!("not a find_node response: {:?}", other),
    }
}

#[test]
fn announced_peers_are_found() {
    let mut rpc = node();
    for (n, port, implied_port) in [(2u8, 80, None), (3, 81, Some(true)), (4, 82, Some(false))] {
        let token = token(&mut rpc, n);
        let request = RequestSpecific::AnnouncePeer(AnnouncePeerRequestArguments {
            requester_id: id(n),
            info_hash: id(40),
            port,
            implied_port,
            token,
        });
        acknowledged(ask(&mut rpc, n, &request));
    }
    let request = RequestSpecific::GetPeers(GetPeersRequestArguments {
        requester_id: id(5),
        info_hash: id(40),
    });
    match ask(&mut rpc, 5, &request) {
        MessageType::Response(ResponseSpecific::GetPeers(arguments)) => {
            assert_eq!(
                arguments.values,
                vec![
                    SocketAddr::new(addr(2).ip, 80),
                    addr(3),
                    SocketAddr::new(addr(4).ip, 82),
                ]
            );
            assert_eq!(arguments.token.len(), 20);
            assert_eq!(arguments.nodes.unwrap().len(), 0);
        }
        other => panic!("not a get_peers response: {:?}", other),
    }
}

#[test]
fn bad_tokens_are_refused() {
    let mut rpc = node();
    // The token of another host.
    let stolen = token(&mut rpc, 9);
    let announce = RequestSpecific::AnnouncePeer(AnnouncePeerRequestArguments {
        requester_id: id(2),
        info_hash: id(40),
        port: 80,
        implied_port: None,
        token: stolen.clone(),
    });
    let refused = (203, "Bad token".to_string());
    assert_eq!(error_of(ask(&mut rpc, 2, &announce)), refused);
    let target = hash_immutable(&b"x".to_vec());
    let reply = put_immutable(&mut rpc, 2, stolen.clone(), target, b"x".to_vec());
    assert_eq!(error_of(reply), refused);
    let arguments = PutMutableRequestArguments { token: stolen, ..signed(b"x", 1, None) };
    let reply = ask(&mut rpc, 2, &RequestSpecific::PutMutable(arguments));
    assert_eq!(error_of(reply), refused);
    assert!(matches!(
        get_value(&mut rpc, 2, target, None),
        MessageType::Response(ResponseSpecific::NoValues(_))
    ));
}

#[test]
fn stored_immutable_values_are_found() {
    let mut rpc = node();
    let v = b"Hello World!".to_vec();
    let target = hash_immutable(&v);
    let token = token(&mut rpc, 2);
    acknowledged(put_immutable(&mut rpc, 2, token, target, v.clone()));
    match get_value(&mut rpc, 3, target, None) {
        MessageType::Response(ResponseSpecific::GetImmutable(arguments)) => {
            assert_eq!(arguments.responder_id, id(1));
            assert_eq!(arguments.v, v);
        }
        other => panic!("not the value: {:?}", other),
    }
    // Whoever names a sequence number asks for a mutable item.
    assert!(matches!(
        get_value(&mut rpc, 3, target, Some(0)),
        MessageType::Response(ResponseSpecific::NoValues(_))
    ));
}

#[test]
fn immutable_values_are_checked() {
    let mut rpc = node();
    let longest = vec![1; 1000];
    let target = hash_immutable(&longest);
    let good = token(&mut rpc, 2);
    acknowledged(put_immutable(&mut rpc, 2, good.clone(), target, longest));
    let too_long = vec![1; 1001];
    let target = hash_immutable(&too_long);
    assert_eq!(
        error_of(put_immutable(&mut rpc, 2, good.clone(), target, too_long)),
        (205, "Message (v field) too big.".to_string())
    );
    assert_eq!(
        error_of(put_immutable(&mut rpc, 2, good, id(40), b"x".to_vec())),
        (203, "Target doesn't match the sha1 hash of v field".to_string())
    );
}

#[test]
fn the_least_recently_used_value_leaves() {
    let mut rpc = node();
    let good = token(&mut rpc, 2);
    let value = |n: u16| n.to_be_bytes().to_vec();
    for n in 0..1000u16 {
        let target = hash_immutable(&value(n));
        acknowledged(put_immutable(&mut rpc, 2, good.clone(), target, value(n)));
    }
    // Value 0 is used, so value 1 is the one that was not used for longest.
    assert!(matches!(
        get_value(&mut rpc, 3, hash_immutable(&value(0)), None),
        MessageType::Response(ResponseSpecific::GetImmutable(_))
    ));
    let target = hash_immutable(&value(1000));
    acknowledged(put_immutable(&mut rpc, 2, good, target, value(1000)));
    for (n, there) in [(0u16, true), (1, false), (2, true), (1000, true)] {
        let reply = get_value(&mut rpc, 3, hash_immutable(&value(n)), None);
        let found =
            matches!(reply, MessageType::Response(ResponseSpecific::GetImmutable(_)));
        assert_eq!(found, there);
    }
}

#[test]
fn stored_mutable_items_are_found() {
    let mut rpc = node();
    let arguments = signed(b"Hello World!", 4, Some(b"foobar"));
    let (target, k, sig) = (arguments.target, arguments.k.clone(), arguments.sig.clone());
    acknowledged(put_mutable(&mut rpc, 2, arguments));
    for seq in [None, Some(3)] {
        match get_value(&mut rpc, 3, target, seq) {
            MessageType::Response(ResponseSpecific::GetMutable(arguments)) => {
                assert_eq!(arguments.responder_id, id(1));
                assert_eq!(arguments.v, b"Hello World!".to_vec());
                assert_eq!(arguments.k, k);
                assert_eq!(arguments.seq, 4);
                assert_eq!(arguments.sig, sig);
            }
            other => panic!("not the item: {:?}", other),
        }
    }
    match get_value(&mut rpc, 3, target, Some(4)) {
        MessageType::Response(ResponseSpecific::NoMoreRecentValue(arguments)) => {
            assert_eq!(arguments.seq, 4);
        }
        other => panic!("not up to date: {:?}", other),
    }
}

#[test]
fn mutable_items_are_checked() {
    let mut rpc = node();
    let stored = signed(b"one", 5, None);
    let target = stored.target;
    acknowledged(put_mutable(&mut rpc, 2, stored));

    let long = signed(&[1; 1001], 6, None);
    assert_eq!(
        error_of(put_mutable(&mut rpc, 2, long)),
        (205, "Message (v field) too big.".to_string())
    );
    acknowledged(put_mutable(&mut rpc, 2, signed(b"x", 1, Some(&[1; 64]))));
    let salty = signed(b"x", 1, Some(&[1; 65]));
    assert_eq!(
        error_of(put_mutable(&mut rpc, 2, salty)),
        (207, "salt (salt field) too big.".to_string())
    );
    let mismatch = PutMutableRequestArguments { cas: Some(4), ..signed(b"two", 6, None) };
    assert_eq!(
        error_of(put_mutable(&mut rpc, 2, mismatch)),
        (301, "CAS mismatched, re-read value and try again.".to_string())
    );
    let old = signed(b"zero", 4, None);
    assert_eq!(
        error_of(put_mutable(&mut rpc, 2, old)),
        (302, "Sequence number less than current".to_string())
    );
    let forged = PutMutableRequestArguments { v: b"two".to_vec(), ..signed(b"one", 6, None) };
    assert_eq!(
        error_of(put_mutable(&mut rpc, 2, forged)),
        (206, "Invalid signature".to_string())
    );
    let no_key = PutMutableRequestArguments { k: vec![1; 31], ..signed(b"one", 6, None) };
    assert_eq!(error_of(put_mutable(&mut rpc, 2, no_key)).0, 206);
    let no_sig = PutMutableRequestArguments { sig: vec![1; 63], ..signed(b"one", 6, None) };
    assert_eq!(error_of(put_mutable(&mut rpc, 2, no_sig)).0, 206);

    // None of these changed what is stored.
    match get_value(&mut rpc, 3, target, None) {
        MessageType::Response(ResponseSpecific::GetMutable(arguments)) => {
            assert_eq!(arguments.v, b"one".to_vec());
            assert_eq!(arguments.seq, 5);
        }
        other => panic!("not the item: {:?}", other),
    }
    let next = PutMutableRequestArguments { cas: Some(5), ..signed(b"two", 6, None) };
    acknowledged(put_mutable(&mut rpc, 2, next));
    match get_value(&mut rpc, 3, target, None) {
        MessageType::Response(ResponseSpecific::GetMutable(arguments)) => {
            assert_eq!(arguments.v, b"two".to_vec());
        }
        other => panic!("not the item: {:?}", other),
    }
}

#[test]
fn responses_can_be_sent_by_hand() {
    let mut rpc = node();
    let response = ResponseSpecific::Ping(PingResponseArguments { responder_id: id(6) });
    rpc.respond(addr(2), 99, response);
    let sent = rpc.take_outgoing();
    assert_eq!(sent.len(), 1);
    assert_eq!(sent[0].to, addr(2));
    assert_eq!(sent[0].message.transaction_id, 99);
    assert!(matches!(
        sent[0].message.message_type,
        MessageType::Response(ResponseSpecific::Ping(PingResponseArguments { .. }))
    ));
}

#[test]
fn tokens_outlive_one_change_of_the_secret() {
    let mut rpc = node();
    let handed_out = token(&mut rpc, 2);
    let target = hash_immutable(&b"x".to_vec());
    rpc.tick([21; 20], &vec![], None, START + 300_000 * MS);
    assert_eq!(token(&mut rpc, 2), handed_out);
    rpc.tick([22; 20], &vec![], None, START + 300_000 * MS + 1);
    assert_ne!(token(&mut rpc, 2), handed_out);
    acknowledged(put_immutable(&mut rpc, 2, handed_out.clone(), target, b"x".to_vec()));
    rpc.tick([23; 20], &vec![], None, START + 600_000 * MS + 2);
    let reply = put_immutable(&mut rpc, 2, handed_out, target, b"x".to_vec());
    assert_eq!(error_of(reply), (203, "Bad token".to_string()));
}

#[test]
fn a_token_is_the_digest_of_address_and_secret() {
    let mut data = vec![10, 0, 0, 2];
    data.extend_from_slice(&[8; 20]);
    let tokens = Tokens::new([7; 20], [8; 20], START);
    let expected = sha1_smol::Sha1::from(&data).digest().bytes().to_vec();
    assert_eq!(tokens.generate_token(&addr(2)), expected);
    assert!(tokens.validate(&addr(2), &expected));
    assert!(!tokens.validate(&addr(3), &expected));
    assert!(!tokens.validate(&addr(2), &expected[..19].to_vec()));
    let mut data = vec![0; 16];
    data[15] = 1;
    data.extend_from_slice(&[7; 20]);
    let previous = sha1_smol::Sha1::from(&data).digest().bytes().to_vec();
    let v6 = SocketAddr::new(IpAddr::V6(1), 6881);
    assert!(tokens.validate(&v6, &previous));
    assert_ne!(tokens.generate_token(&v6), previous);
}

#[test]
fn peers_are_bounded_and_the_oldest_leave() {
    let mut peers = PeersStore::new(2, 3);
    for n in [1u8, 2, 3, 1, 4] {
        peers.add_peer(id(40), Peer { id: id(n), address: addr(n) });
    }
    assert_eq!(peers.recent_peers(&id(40)), vec![addr(3), addr(1), addr(4)]);
    peers.add_peer(id(41), Peer { id: id(1), address: addr(1) });
    peers.add_peer(id(40), Peer { id: id(4), address: addr(5) });
    assert_eq!(peers.recent_peers(&id(40)), vec![addr(3), addr(1), addr(5)]);
    peers.add_peer(id(42), Peer { id: id(1), address: addr(1) });
    assert_eq!(peers.recent_peers(&id(41)), vec![]);
    assert_eq!(peers.recent_peers(&id(40)).len(), 3);
    let mut many = PeersStore::new(1, 30);
    for n in 0..30u8 {
        many.add_peer(id(40), Peer { id: id(n), address: addr(n) });
    }
    let expected: Vec<SocketAddr> = (10..30u8).map(addr).collect();
    assert_eq!(many.recent_peers(&id(40)), expected);
}

#[test]
fn refusals_go_by_what_was_found() {
    let code = |error: Option<mainline::messages::ErrorSpecific>| error.map(|e| e.code);
    assert_eq!(code(check_put(true, 1000, 64)), None);
    assert_eq!(code(check_put(false, 1001, 65)), Some(203));
    assert_eq!(code(check_put(true, 1001, 65)), Some(205));
    assert_eq!(code(check_put(true, 1000, 65)), Some(207));
    assert_eq!(code(check_immutable(true)), None);
    assert_eq!(code(check_immutable(false)), Some(203));
    assert_eq!(code(check_mutable(None, Some(7), -1, true)), None);
    assert_eq!(code(check_mutable(None, None, 1, false)), Some(206));
    assert_eq!(code(check_mutable(Some(1), Some(1), 1, true)), None);
    assert_eq!(code(check_mutable(Some(1), Some(2), 0, false)), Some(301));
    assert_eq!(code(check_mutable(Some(1), None, 0, false)), Some(302));
    assert_eq!(code(check_mutable(Some(1), Some(1), 2, false)), Some(206));
}
