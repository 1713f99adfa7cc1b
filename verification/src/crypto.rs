//! Hashing and signatures.

use vstd::prelude::*;

verus! {

/// How many bytes `sha1_smol` can count in its 64 bit count of bits.
pub const MAX_HASHED: u64 = 0x1fff_ffff_ffff_ffff;

/// The SHA-1 digest of some bytes.
pub uninterp spec fn sha1_digest(data: Seq<u8>) -> Seq<u8>;

/// `sha1_smol::Sha1::from(data).digest().bytes()`: the SHA-1 digest of the bytes, which is the
/// same for the same bytes. `sha1_smol` counts the bits hashed in 64 bits.
#[verifier::external_body]
pub(crate) fn sha1(data: &Vec<u8>) -> (r: [u8; 20])
    requires
        data@.len() <= MAX_HASHED,
    ensures
        r@ == sha1_digest(data@),
{
    sha1_smol::Sha1::from(data).digest().bytes()
}

/// Whether `signature` is an Ed25519 signature of `message` under the public key `key`.
pub uninterp spec fn signature_holds(key: Seq<u8>, message: Seq<u8>, signature: Seq<u8>) -> bool;

/// `ed25519_dalek::VerifyingKey::verify`, on a key and a signature that are handed over as bytes
/// and taken up by `VerifyingKey::try_from` and `Signature::from_slice`: whether the bytes are a
/// key, are a signature, and the signature is one of the message under the key. The answer is the
/// same for the same bytes.
#[verifier::external_body]
pub(crate) fn verify(key: &Vec<u8>, message: &Vec<u8>, signature: &Vec<u8>) -> (r: bool)
    ensures
        r == signature_holds(key@, message@, signature@),
{
    match (
        ed25519_dalek::VerifyingKey::try_from(key.as_slice()),
        ed25519_dalek::Signature::from_slice(signature),
    ) {
        (Ok(key), Ok(signature)) => {
            ed25519_dalek::Verifier::verify(&key, message, &signature).is_ok()
        },
        _ => false,
    }
}

} // verus!
