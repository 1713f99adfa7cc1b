//! Shared byte buffers.

use bytes::Bytes;
use vstd::prelude::*;

verus! {

/// `bytes::Bytes`, a cheaply shared buffer of bytes that never change.
#[verifier::external_type_specification]
#[verifier::external_body]
pub struct ExBytes(bytes::Bytes);

/// The bytes that a buffer holds, first to last.
pub uninterp spec fn content(buffer: Bytes) -> Seq<u8>;

/// The bytes that an optional buffer holds.
pub open spec fn option_content(buffer: Option<Bytes>) -> Option<Seq<u8>> {
    match buffer {
        Some(b) => Some(content(b)),
        None => None,
    }
}

/// `Bytes::clone`: a second handle on the bytes of the first.
#[verifier::external_body]
pub(crate) fn share(buffer: &Bytes) -> (r: Bytes)
    ensures
        content(r) == content(*buffer),
{
    buffer.clone()
}

/// `Vec::<u8>::from(Bytes)`: a vector of the bytes that the buffer holds.
#[verifier::external_body]
pub(crate) fn into_vec(buffer: Bytes) -> (r: Vec<u8>)
    ensures
        r@ == content(buffer),
{
    Vec::from(buffer)
}

/// `Bytes::from(Vec<u8>)`: a buffer of the bytes that the vector holds.
#[verifier::external_body]
pub(crate) fn from_vec(bytes: Vec<u8>) -> (r: Bytes)
    ensures
        content(r) == bytes@,
{
    Bytes::from(bytes)
}

/// A second handle on an optional buffer.
pub fn share_option(buffer: &Option<Bytes>) -> (r: Option<Bytes>)
    ensures
        option_content(r) == option_content(*buffer),
{
    match buffer {
        Some(b) => Some(share(b)),
        None => None,
    }
}

/// The bytes of a buffer, which stays as it is.
pub fn copy_to_vec(buffer: &Bytes) -> (r: Vec<u8>)
    ensures
        r@ == content(*buffer),
{
    into_vec(share(buffer))
}

} // verus!
