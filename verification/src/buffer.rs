//! The byte buffers of the `bytes` crate.

use vstd::prelude::*;

use crate::octets::{be16, be32};

verus! {

/// An immutable byte buffer.
#[verifier::external_type_specification]
#[verifier::external_body]
pub struct ExBytes(bytes::Bytes);

/// A byte buffer that grows at its end and is consumed from its front.
#[verifier::external_type_specification]
#[verifier::external_body]
pub struct ExBytesMut(bytes::BytesMut);

/// The bytes that a `Bytes` holds.
pub uninterp spec fn contents(b: bytes::Bytes) -> Seq<u8>;

/// The bytes that a `BytesMut` holds.
pub uninterp spec fn held(b: bytes::BytesMut) -> Seq<u8>;

/// Whether a buffer that holds `n` bytes can be had. A buffer allocates up to
/// four times what it holds, and an allocation has at most `isize::MAX` bytes.
pub open spec fn has_room(n: nat) -> bool {
    n <= isize::MAX as int / 4
}

/// `BytesMut::new`: an empty buffer.
#[verifier::external_body]
pub(crate) fn new_buffer() -> (b: bytes::BytesMut)
    ensures
        held(b) == Seq::<u8>::empty(),
{
    bytes::BytesMut::new()
}

/// `BytesMut::with_capacity`: an empty buffer.
#[verifier::external_body]
pub(crate) fn buffer_with_capacity(capacity: usize) -> (b: bytes::BytesMut)
    requires
        has_room(capacity as nat),
    ensures
        held(b) == Seq::<u8>::empty(),
{
    bytes::BytesMut::with_capacity(capacity)
}

/// `BufMut::put_u8` on a `BytesMut` appends one byte.
#[verifier::external_body]
pub(crate) fn put_u8(b: &mut bytes::BytesMut, n: u8)
    requires
        has_room(held(*old(b)).len() + 1),
    ensures
        held(*final(b)) == held(*old(b)).push(n),
{
    bytes::BufMut::put_u8(b, n)
}

/// `BufMut::put_u16` on a `BytesMut` appends the big-endian bytes of a number.
#[verifier::external_body]
pub(crate) fn put_u16(b: &mut bytes::BytesMut, n: u16)
    requires
        has_room(held(*old(b)).len() + 2),
    ensures
        held(*final(b)) == held(*old(b)) + be16(n),
{
    bytes::BufMut::put_u16(b, n)
}

/// `BufMut::put_u32` on a `BytesMut` appends the big-endian bytes of a number.
#[verifier::external_body]
pub(crate) fn put_u32(b: &mut bytes::BytesMut, n: u32)
    requires
        has_room(held(*old(b)).len() + 4),
    ensures
        held(*final(b)) == held(*old(b)) + be32(n),
{
    bytes::BufMut::put_u32(b, n)
}

/// `BytesMut::extend_from_slice` appends bytes.
#[verifier::external_body]
pub(crate) fn extend_buffer(b: &mut bytes::BytesMut, s: &[u8])
    requires
        has_room(held(*old(b)).len() + s@.len()),
    ensures
        held(*final(b)) == held(*old(b)) + s@,
{
    b.extend_from_slice(s)
}

/// `BytesMut::freeze`: the same bytes, now immutable.
#[verifier::external_body]
pub(crate) fn freeze(b: bytes::BytesMut) -> (r: bytes::Bytes)
    ensures
        contents(r) == held(b),
{
    b.freeze()
}

/// `BytesMut::split_to` takes the first `at` bytes off the buffer and returns
/// them. It panics if there are fewer.
#[verifier::external_body]
pub(crate) fn split_to(b: &mut bytes::BytesMut, at: usize) -> (r: bytes::BytesMut)
    requires
        at <= held(*old(b)).len(),
    ensures
        held(r) == held(*old(b)).take(at as int),
        held(*final(b)) == held(*old(b)).skip(at as int),
{
    b.split_to(at)
}

/// `BytesMut::as_ref`: the bytes that the buffer holds.
#[verifier::external_body]
pub(crate) fn buffer_slice(b: &bytes::BytesMut) -> (r: &[u8])
    ensures
        r@ == held(*b),
{
    b.as_ref()
}

/// `Bytes::copy_from_slice`: a copy of the bytes.
#[verifier::external_body]
pub(crate) fn copy_to_bytes(s: &[u8]) -> (r: bytes::Bytes)
    ensures
        contents(r) == s@,
{
    bytes::Bytes::copy_from_slice(s)
}

/// `Bytes::from` a vector: a buffer with the bytes of the vector.
#[verifier::external_body]
pub(crate) fn bytes_from_vec(v: Vec<u8>) -> (b: bytes::Bytes)
    ensures
        contents(b) == v@,
{
    bytes::Bytes::from(v)
}

/// `Bytes::as_ref`: the bytes that the buffer holds.
#[verifier::external_body]
pub(crate) fn bytes_slice(b: &bytes::Bytes) -> (r: &[u8])
    ensures
        r@ == contents(*b),
{
    b.as_ref()
}

/// `Bytes::clone`: a handle on the same bytes.
pub assume_specification[ <bytes::Bytes as Clone>::clone ](b: &bytes::Bytes) -> (r: bytes::Bytes)
    ensures
        contents(r) == contents(*b),
;

} // verus!
