//! The items that the network stores: immutable values, and mutable values with their signature.

use crate::buffer::{content, copy_to_vec, option_content, share, share_option};
use crate::crypto::{sha1, sha1_digest, signature_holds, verify};
use crate::id::{id_of_bytes, Id};
use bytes::Bytes;
use vstd::prelude::*;

verus! {

/// A length of values and salts that can be hashed, far beyond any that a datagram can carry.
pub const MAX_LENGTH: u64 = 0x0800_0000_0000_0000;

/// A number in decimal digits.
pub open spec fn decimal(n: nat) -> Seq<u8>
    decreases n,
{
    if n < 10 {
        seq![(48 + n) as u8]
    } else {
        decimal(n / 10).push((48 + n % 10) as u8)
    }
}

/// A number in decimal digits, with a sign where it is negative.
pub open spec fn signed_decimal(n: int) -> Seq<u8> {
    if n < 0 {
        seq![45u8] + decimal((-n) as nat)
    } else {
        decimal(n as nat)
    }
}

/// A byte string in bencoding: its length in decimal digits, a colon, and its bytes.
pub open spec fn bencoded(bytes: Seq<u8>) -> Seq<u8> {
    decimal(bytes.len()).push(58u8) + bytes
}

/// The text `4:salt`.
pub open spec fn salt_key() -> Seq<u8> {
    seq![52u8, 58u8, 115u8, 97u8, 108u8, 116u8]
}

/// The text `3:seqi`.
pub open spec fn seq_key() -> Seq<u8> {
    seq![51u8, 58u8, 115u8, 101u8, 113u8, 105u8]
}

/// The text `e1:v`.
pub open spec fn value_key() -> Seq<u8> {
    seq![101u8, 49u8, 58u8, 118u8]
}

/// What is signed of a mutable item: the salt, where there is one, the sequence number and the
/// value, in the order and under the keys that they have in a message.
pub open spec fn signable(seq: i64, value: Seq<u8>, salt: Option<Seq<u8>>) -> Seq<u8> {
    let salted = match salt {
        Some(s) => salt_key() + bencoded(s),
        None => Seq::empty(),
    };
    salted + seq_key() + signed_decimal(seq as int) + value_key() + bencoded(value)
}

/// The identifier under which an immutable value is stored.
pub open spec fn immutable_target(value: Seq<u8>) -> Id {
    id_of_bytes(sha1_digest(bencoded(value)))
}

/// The identifier under which the mutable item of a key and a salt is stored.
pub open spec fn mutable_target(key: Seq<u8>, salt: Option<Seq<u8>>) -> Id {
    id_of_bytes(
        sha1_digest(
            key + match salt {
                Some(s) => s,
                None => Seq::empty(),
            },
        ),
    )
}

/// A number has no more digits than its size and one.
proof fn lemma_decimal_length(n: nat)
    ensures
        1 <= decimal(n).len() <= n + 1,
    decreases n,
{
    if n >= 10 {
        lemma_decimal_length(n / 10);
    }
}

/// Appends a number in decimal digits.
fn push_decimal(out: &mut Vec<u8>, n: u64)
    ensures
        final(out)@ == old(out)@ + decimal(n as nat),
    decreases n,
{
    let ghost before = out@;
    if n >= 10 {
        push_decimal(out, n / 10);
    }
    out.push(48 + (n % 10) as u8);
    assert(out@ =~= before + decimal(n as nat));
}

/// Appends a number in decimal digits, with a sign where it is negative.
fn push_signed_decimal(out: &mut Vec<u8>, n: i64)
    ensures
        final(out)@ == old(out)@ + signed_decimal(n as int),
{
    let ghost before = out@;
    if n < 0 {
        out.push(45);
        let size: i128 = -(n as i128);
        push_decimal(out, size as u64);
    } else {
        push_decimal(out, n as u64);
    }
    assert(out@ =~= before + signed_decimal(n as int));
}

/// Appends bytes.
fn push_bytes(out: &mut Vec<u8>, bytes: &[u8])
    ensures
        final(out)@ == old(out)@ + bytes@,
{
    let ghost before = out@;
    let mut i: usize = 0;
    while i < bytes.len()
        invariant
            i <= bytes@.len(),
            out@ == before + bytes@.take(i as int),
        decreases bytes@.len() - i,
    {
        out.push(bytes[i]);
        i = i + 1;
        assert(out@ =~= before + bytes@.take(i as int));
    }
    assert(bytes@.take(bytes@.len() as int) =~= bytes@);
}

/// Appends a byte string in bencoding.
fn push_bencoded(out: &mut Vec<u8>, bytes: &Vec<u8>)
    ensures
        final(out)@ == old(out)@ + bencoded(bytes@),
{
    let ghost before = out@;
    push_decimal(out, bytes.len() as u64);
    out.push(58);
    push_bytes(out, bytes.as_slice());
    assert(out@ =~= before + bencoded(bytes@));
}

/// What is signed of a mutable item.
pub fn encode_signable(seq: i64, value: &Bytes, salt: &Option<Bytes>) -> (r: Vec<u8>)
    ensures
        r@ == signable(seq, content(*value), option_content(*salt)),
{
    let mut out: Vec<u8> = Vec::new();
    if let Some(s) = salt {
        let salt_key: [u8; 6] = [52, 58, 115, 97, 108, 116];
        push_bytes(&mut out, &salt_key);
        assert(salt_key@ =~= crate::item::salt_key());
        let bytes = copy_to_vec(s);
        push_bencoded(&mut out, &bytes);
    }
    let seq_key: [u8; 6] = [51, 58, 115, 101, 113, 105];
    push_bytes(&mut out, &seq_key);
    assert(seq_key@ =~= crate::item::seq_key());
    push_signed_decimal(&mut out, seq);
    let value_key: [u8; 4] = [101, 49, 58, 118];
    push_bytes(&mut out, &value_key);
    assert(value_key@ =~= crate::item::value_key());
    let bytes = copy_to_vec(value);
    push_bencoded(&mut out, &bytes);
    assert(out@ =~= signable(seq, content(*value), option_content(*salt)));
    out
}

/// The identifier under which an immutable value is stored.
pub fn hash_immutable(v: &Vec<u8>) -> (r: Id)
    requires
        v@.len() <= MAX_LENGTH,
    ensures
        r == immutable_target(v@),
{
    let mut encoded: Vec<u8> = Vec::new();
    push_bencoded(&mut encoded, v);
    proof {
        lemma_decimal_length(v@.len());
        assert(encoded@ =~= bencoded(v@));
    }
    Id::from_bytes(&sha1(&encoded))
}

/// Whether an immutable value is the one that `target` stands for.
pub fn validate_immutable(v: &Vec<u8>, target: &Id) -> (r: bool)
    requires
        v@.len() <= MAX_LENGTH,
    ensures
        r == (immutable_target(v@) == *target),
{
    hash_immutable(v) == *target
}

/// A mutable item: a value that the holder of a key may replace by one with a higher sequence
/// number, and the signature that shows it is theirs.
#[derive(Debug)]
pub struct MutableItem {
    target: Id,
    key: Vec<u8>,
    seq: i64,
    value: Bytes,
    signature: Vec<u8>,
    salt: Option<Bytes>,
    cas: Option<i64>,
}

/// What a [`MutableItem`] says.
pub struct ItemView {
    pub target: Id,
    pub key: Seq<u8>,
    pub seq: i64,
    pub value: Seq<u8>,
    pub signature: Seq<u8>,
    pub salt: Option<Seq<u8>>,
    pub cas: Option<i64>,
}

impl View for MutableItem {
    type V = ItemView;

    closed spec fn view(&self) -> ItemView {
        ItemView {
            target: self.target,
            key: self.key@,
            seq: self.seq,
            value: content(self.value),
            signature: self.signature@,
            salt: option_content(self.salt),
            cas: self.cas,
        }
    }
}

impl ItemView {
    /// Whether the signature is one of the item's salt, sequence number and value.
    pub open spec fn signed(self) -> bool {
        signature_holds(self.key, signable(self.seq, self.value, self.salt), self.signature)
    }
}

/// Why a mutable item is refused: its key, its signature, or what it signs is not right.
#[derive(Clone, Copy, Debug, PartialEq, Eq, Structural)]
pub struct InvalidItem;

impl MutableItem {
    /// An item with its signature, taken as it is; it belongs under the hash of key and salt.
    pub fn new_signed_unchecked(
        key: Vec<u8>,
        signature: Vec<u8>,
        value: Bytes,
        seq: i64,
        salt: Option<Bytes>,
    ) -> (r: MutableItem)
        requires
            key@.len() <= MAX_LENGTH,
            option_content(salt) matches Some(s) ==> s.len() <= MAX_LENGTH,
        ensures
            r@ == (ItemView {
                target: mutable_target(key@, option_content(salt)),
                key: key@,
                seq,
                value: content(value),
                signature: signature@,
                salt: option_content(salt),
                cas: None,
            }),
    {
        let mut encoded: Vec<u8> = Vec::new();
        push_bytes(&mut encoded, key.as_slice());
        if let Some(s) = &salt {
            let bytes = copy_to_vec(s);
            push_bytes(&mut encoded, bytes.as_slice());
        }
        assert(encoded@ =~= key@ + match option_content(salt) {
            Some(s) => s,
            None => Seq::empty(),
        });
        let target = Id::from_bytes(&sha1(&encoded));
        MutableItem { target, key, seq, value, signature, salt, cas: None }
    }

    /// The same item, to be stored only in place of one with the sequence number `cas`.
    pub fn with_cas(self, cas: Option<i64>) -> (r: MutableItem)
        ensures
            r@ == (ItemView { cas, ..self@ }),
    {
        MutableItem {
            target: self.target,
            key: self.key,
            seq: self.seq,
            value: self.value,
            signature: self.signature,
            salt: self.salt,
            cas,
        }
    }

    /// The item that a message carries for `target`: refused exactly where its signature is not
    /// one of its salt, sequence number and value under its key.
    pub fn from_dht_message(
        target: &Id,
        key: &Vec<u8>,
        v: Bytes,
        seq: &i64,
        signature: &Vec<u8>,
        salt: &Option<Bytes>,
        cas: &Option<i64>,
    ) -> (r: Result<MutableItem, InvalidItem>)
        ensures
            ({
                let item = ItemView {
                    target: *target,
                    key: key@,
                    seq: *seq,
                    value: content(v),
                    signature: signature@,
                    salt: option_content(*salt),
                    cas: *cas,
                };
                &&& r is Ok <==> item.signed()
                &&& r matches Ok(i) ==> i@ == item
            }),
    {
        let message = encode_signable(*seq, &v, salt);
        let signed = verify(key, &message, signature);
        let key_copy = key.clone();
        let signature_copy = signature.clone();
        assert(key_copy@ =~= key@);
        assert(signature_copy@ =~= signature@);
        let item = MutableItem {
            target: *target,
            key: key_copy,
            seq: *seq,
            value: v,
            signature: signature_copy,
            salt: share_option(salt),
            cas: *cas,
        };
        item.checked(signed)
    }

    /// The item, unless its signature was found not to hold.
    pub fn checked(self, signed: bool) -> (r: Result<MutableItem, InvalidItem>)
        ensures
            r == if signed {
                Ok(self)
            } else {
                Err(InvalidItem)
            },
    {
        if signed {
            Ok(self)
        } else {
            Err(InvalidItem)
        }
    }

    /// The identifier under which the item is stored.
    pub fn target(&self) -> (r: &Id)
        ensures
            *r == self@.target,
    {
        &self.target
    }

    /// The public key of the item's author.
    pub fn key(&self) -> (r: &Vec<u8>)
        ensures
            r@ == self@.key,
    {
        &self.key
    }

    /// The sequence number.
    pub fn seq(&self) -> (r: &i64)
        ensures
            *r == self@.seq,
    {
        &self.seq
    }

    /// The value.
    pub fn value(&self) -> (r: &Bytes)
        ensures
            content(*r) == self@.value,
    {
        &self.value
    }

    /// The signature.
    pub fn signature(&self) -> (r: &Vec<u8>)
        ensures
            r@ == self@.signature,
    {
        &self.signature
    }

    /// The salt.
    pub fn salt(&self) -> (r: &Option<Bytes>)
        ensures
            option_content(*r) == self@.salt,
    {
        &self.salt
    }

    /// The sequence number of the item that this one may replace.
    pub fn cas(&self) -> (r: &Option<i64>)
        ensures
            *r == self@.cas,
    {
        &self.cas
    }
}

impl Clone for MutableItem {
    fn clone(&self) -> (r: MutableItem)
        ensures
            r@ == self@,
    {
        let key = self.key.clone();
        let signature = self.signature.clone();
        assert(key@ =~= self.key@);
        assert(signature@ =~= self.signature@);
        MutableItem {
            target: self.target,
            key,
            seq: self.seq,
            value: share(&self.value),
            signature,
            salt: share_option(&self.salt),
            cas: self.cas,
        }
    }
}

} // verus!
