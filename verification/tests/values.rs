use bytes::Bytes;
use mainline::address::{IpAddr, SocketAddr};
use mainline::buffer::{copy_to_vec, share_option};
use mainline::id::Id;
use mainline::item::{
    encode_signable, hash_immutable, validate_immutable, InvalidItem, MutableItem,
};
use mainline::messages::{
    GetImmutableResponseArguments, GetMutableResponseArguments, Message, MessageType,
    RequestSpecific, ResponseSpecific,
};
use mainline::response::{Event, ResponseMessage, ResponseSender, ResponseValue};
use mainline::rpc::Rpc;

const START: u64 = 1_000_000_000_000;

fn addr(n: u8) -> SocketAddr {
    SocketAddr::new(IpAddr::V4(0x0a00_0000 + n as u32), 6881)
}

fn id(n: u8) -> Id {
    Id::from_bytes(&[n; 20])
}

fn unhex(text: &str) -> Vec<u8> {
    (0..text.len() / 2).map(|i| u8::from_str_radix(&text[2 * i..2 * i + 2], 16).unwrap()).collect()
}

fn id_of(text: &str) -> Id {
    let bytes: [u8; 20] = unhex(text).try_into().unwrap();
    Id::from_bytes(&bytes)
}

const KEY: &str = "77ff84905a91936367c01360803104f92432fcd904a43511876df5cdf3e7e548";
const PLAIN: &str = "305ac8aeb6c9c151fa120f120ea2cfb923564e11552d06a5d856091e5e853cff\
                     1260d3f39e4999684aa92eb73ffd136e6f4f3ecbfda0ce53a1608ecd7ae21f01";
const SALTED: &str = "6834284b6b24c3204eb2fea824d82f88883a3d95e8b4a21b8c0ded553d17d17d\
                      df9a8a7104b1258f30bed3787e6cb896fca78c58f8e03b5f18f14951a87d9a08";

fn node() -> Rpc {
    let bound: Result<SocketAddr, ()> = Ok(addr(1));
    Rpc::new(id(1), [7; 20], [8; 20], bound, START).unwrap()
}

fn answer(response: ResponseSpecific) -> Option<(Message, SocketAddr)> {
    let message_type = MessageType::Response(response);
    Some((Message { transaction_id: 0, read_only: false, message_type }, addr(2)))
}

fn immutable(v: &[u8]) -> Option<(Message, SocketAddr)> {
    answer(ResponseSpecific::GetImmutable(GetImmutableResponseArguments {
        responder_id: id(2),
        token: vec![1],
        nodes: None,
        v: v.to_vec(),
    }))
}

fn mutable(sig: &str, v: &[u8]) -> Option<(Message, SocketAddr)> {
    answer(ResponseSpecific::GetMutable(GetMutableResponseArguments {
        responder_id: id(2),
        token: vec![1],
        nodes: None,
        v: v.to_vec(),
        k: unhex(KEY),
        seq: 1,
        sig: unhex(sig),
    }))
}

fn found() -> Vec<Option<Vec<SocketAddr>>> {
    vec![Some(vec![addr(2)])]
}

#[test]
fn immutable_values_have_their_hash_as_target() {
    let v = b"Hello World!".to_vec();
    let target = id_of("e5f96f6f38320f0f33959cb4d3d656452117aadb");
    assert_eq!(hash_immutable(&v), target);
    assert!(validate_immutable(&v, &target));
    assert!(!validate_immutable(&b"Hello World?".to_vec(), &target));
    let empty = sha1_smol::Sha1::from("0:").digest().bytes();
    assert_eq!(hash_immutable(&vec![]), Id::from_bytes(&empty));
}

#[test]
fn what_is_signed_is_bencoded() {
    let value = Bytes::from_static(b"Hello World!");
    assert_eq!(encode_signable(1, &value, &None), b"3:seqi1e1:v12:Hello World!".to_vec());
    assert_eq!(
        encode_signable(4, &value, &Some(Bytes::from_static(b"foobar"))),
        b"4:salt6:foobar3:seqi4e1:v12:Hello World!".to_vec()
    );
    assert_eq!(
        encode_signable(i64::MIN, &Bytes::new(), &None),
        b"3:seqi-9223372036854775808e1:v0:".to_vec()
    );
}

#[test]
fn mutable_items_have_key_and_salt_as_target() {
    let item = MutableItem::new_signed_unchecked(
        unhex(KEY),
        unhex(PLAIN),
        Bytes::from_static(b"Hello World!"),
        1,
        None,
    );
    assert_eq!(*item.target(), id_of("4a533d47ec9c7d95b1ad75f576cffc641853b750"));
    let item = MutableItem::new_signed_unchecked(
        unhex(KEY),
        unhex(SALTED),
        Bytes::from_static(b"Hello World!"),
        1,
        Some(Bytes::from_static(b"foobar")),
    );
    assert_eq!(*item.target(), id_of("411eba73b6f087ca51a3795d9c8c938d365e32c1"));
}

#[test]
fn signatures_are_checked() {
    let value = Bytes::from_static(b"Hello World!");
    let salt = Some(Bytes::from_static(b"foobar"));
    let check = |value: &Bytes, seq: i64, sig: &str, salt: &Option<Bytes>| {
        MutableItem::from_dht_message(
            &id(40),
            &unhex(KEY),
            value.clone(),
            &seq,
            &unhex(sig),
            salt,
            &Some(3),
        )
    };
    let item = check(&value, 1, PLAIN, &None).unwrap();
    assert_eq!(*item.target(), id(40));
    assert_eq!(*item.key(), unhex(KEY));
    assert_eq!(*item.seq(), 1);
    assert_eq!(*item.value(), value);
    assert_eq!(*item.signature(), unhex(PLAIN));
    assert_eq!(*item.salt(), None);
    assert_eq!(*item.cas(), Some(3));
    assert!(check(&value, 1, SALTED, &salt).is_ok());
    assert_eq!(check(&value, 2, PLAIN, &None).err(), Some(InvalidItem));
    assert_eq!(check(&value, 1, PLAIN, &salt).err(), Some(InvalidItem));
    assert_eq!(check(&Bytes::from_static(b"Hello"), 1, PLAIN, &None).err(), Some(InvalidItem));
    assert_eq!(check(&value, 1, "00", &None).err(), Some(InvalidItem));
}

#[test]
fn buffers_are_shared_and_copied() {
    let buffer = Bytes::from_static(b"abc");
    assert_eq!(copy_to_vec(&buffer), b"abc".to_vec());
    assert_eq!(share_option(&Some(buffer.clone())), Some(buffer));
    assert_eq!(share_option(&None), None);
}

#[test]
fn valid_immutable_values_are_passed_on() {
    let v = b"Hello World!".to_vec();
    let target = hash_immutable(&v);
    let mut rpc = node();
    rpc.get_immutable(target, ResponseSender { channel: 5 }, &found(), START);
    match &rpc.take_outgoing()[0].message.message_type {
        MessageType::Request(RequestSpecific::GetValue(arguments)) => {
            assert_eq!(arguments.requester_id, id(1));
            assert_eq!(arguments.target, target);
            assert_eq!(arguments.seq, None);
            assert_eq!(arguments.salt, None);
        }
        other => panic!("not a request for a value: {:?}", other),
    }
    rpc.tick([9; 20], &vec![], immutable(&v), START);
    let events = rpc.take_events();
    assert_eq!(events.len(), 1);
    match &events[0] {
        Event::Response {
            to,
            message: ResponseMessage::ResponseValue(ResponseValue::Immutable(response)),
        } => {
            assert_eq!(to.channel, 5);
            assert_eq!(response.from.id, id(2));
            assert_eq!(response.from.address, addr(2));
            assert_eq!(response.from.token, None);
            assert_eq!(response.value, Bytes::from(v));
        }
        other => panic!("not the value: {:?}", other),
    }
    // The node that had the value also handed out a token.
    rpc.tick([9; 20], &vec![], None, START);
    match &rpc.take_events()[0] {
        Event::Response { message: ResponseMessage::ResponseDone(done), .. } => {
            assert_eq!(done.closest_nodes[0].token, Some(vec![1]));
        }
        other => panic!("not the end: {:?}", other),
    }
}

#[test]
fn other_immutable_values_are_not_passed_on() {
    let target = hash_immutable(&b"Hello World!".to_vec());
    let mut rpc = node();
    rpc.get_immutable(target, ResponseSender { channel: 5 }, &found(), START);
    rpc.tick([9; 20], &vec![], immutable(b"Hello World?"), START);
    let events = rpc.take_events();
    assert_eq!(events.len(), 1);
    match &events[0] {
        Event::InvalidImmutable { target: about, value } => {
            assert_eq!(*about, target);
            assert_eq!(*value, Bytes::from_static(b"Hello World?"));
        }
        other => panic!("not a notice: {:?}", other),
    }
    rpc.get_immutable(target, ResponseSender { channel: 6 }, &found(), START);
    assert_eq!(rpc.take_events().len(), 0);
}

#[test]
fn mutable_items_are_passed_on_with_the_salt_that_was_asked_for() {
    let target = id_of("411eba73b6f087ca51a3795d9c8c938d365e32c1");
    let salt = Some(Bytes::from_static(b"foobar"));
    let mut rpc = node();
    rpc.get_mutable(target, salt.clone(), ResponseSender { channel: 5 }, &found(), START);
    match &rpc.take_outgoing()[0].message.message_type {
        MessageType::Request(RequestSpecific::GetValue(arguments)) => {
            assert_eq!(arguments.salt, salt);
            assert_eq!(arguments.seq, None);
        }
        other => panic!("not a request for a value: {:?}", other),
    }
    rpc.tick([9; 20], &vec![], mutable(SALTED, b"Hello World!"), START);
    let events = rpc.take_events();
    assert_eq!(events.len(), 1);
    match &events[0] {
        Event::Response {
            to,
            message: ResponseMessage::ResponseValue(ResponseValue::Mutable(response)),
        } => {
            assert_eq!(to.channel, 5);
            assert_eq!(response.from.id, id(2));
            assert_eq!(*response.item.target(), target);
            assert_eq!(*response.item.value(), Bytes::from_static(b"Hello World!"));
            assert_eq!(*response.item.salt(), salt);
            assert_eq!(*response.item.seq(), 1);
            assert_eq!(*response.item.cas(), None);
        }
        other => panic!("not the item: {:?}", other),
    }
}

#[test]
fn mutable_items_with_wrong_signatures_are_not_passed_on() {
    let target = id_of("411eba73b6f087ca51a3795d9c8c938d365e32c1");
    for (salt, v) in [(None, "Hello World!"), (Some(Bytes::from_static(b"foobar")), "Hello")] {
        let mut rpc = node();
        rpc.get_mutable(target, salt.clone(), ResponseSender { channel: 5 }, &found(), START);
        rpc.tick([9; 20], &vec![], mutable(SALTED, v.as_bytes()), START);
        let events = rpc.take_events();
        assert_eq!(events.len(), 1);
        match &events[0] {
            Event::InvalidMutable { target: about, value, seq, signature, salt: asked } => {
                assert_eq!(*about, target);
                assert_eq!(*value, Bytes::copy_from_slice(v.as_bytes()));
                assert_eq!(*seq, 1);
                assert_eq!(*signature, unhex(SALTED));
                assert_eq!(*asked, salt);
            }
            other => panic!("not a notice: {:?}", other),
        }
    }
}

#[test]
fn an_item_is_refused_where_its_signature_was_found_not_to_hold() {
    let item = || {
        MutableItem::new_signed_unchecked(
            unhex(KEY),
            unhex(PLAIN),
            Bytes::from_static(b"Hello World!"),
            1,
            None,
        )
    };
    assert_eq!(*item().checked(true).unwrap().seq(), 1);
    assert_eq!(item().checked(false).err(), Some(InvalidItem));
}
