//! The receive buffer: `bytes::BytesMut`, whose contents are named here and
//! whose methods that the library calls carry contracts over that name.

use vstd::prelude::*;

use bytes::Buf;

verus! {

#[verifier::external_type_specification]
#[verifier::external_body]
pub struct ExBytesMut(bytes::BytesMut);

/// The bytes that a `BytesMut` holds, in order.
pub uninterp spec fn bytes_of(b: bytes::BytesMut) -> Seq<u8>;

/// `BytesMut::with_capacity`: an empty buffer (its capacity is left
/// unsaid); it panics for a capacity past `isize::MAX`.
#[verifier::external_body]
pub(crate) fn buffer_with_capacity(capacity: usize) -> (b: bytes::BytesMut)
    requires
        capacity <= isize::MAX,
    ensures
        bytes_of(b) == Seq::<u8>::empty(),
{
    bytes::BytesMut::with_capacity(capacity)
}

/// `BytesMut::len`: the number of bytes held.
#[verifier::external_body]
pub(crate) fn buffer_len(b: &bytes::BytesMut) -> (n: usize)
    ensures
        n == bytes_of(*b).len(),
{
    b.len()
}

/// `BytesMut` dereferenced to a slice: the bytes held.
#[verifier::external_body]
pub(crate) fn buffer_bytes(b: &bytes::BytesMut) -> (s: &[u8])
    ensures
        s@ == bytes_of(*b),
{
    &b[..]
}

/// `Buf::advance` on a `BytesMut`: drops the first `n` bytes; it panics
/// past the end.
#[verifier::external_body]
pub(crate) fn buffer_advance(b: &mut bytes::BytesMut, n: usize)
    requires
        n <= bytes_of(*old(b)).len(),
    ensures
        bytes_of(*final(b)) == bytes_of(*old(b)).skip(n as int),
{
    b.advance(n)
}

/// `BytesMut::split_to`: hands out the first `at` bytes and keeps the rest;
/// it panics past the end.
#[verifier::external_body]
pub(crate) fn buffer_split_to(b: &mut bytes::BytesMut, at: usize) -> (head: bytes::BytesMut)
    requires
        at <= bytes_of(*old(b)).len(),
    ensures
        bytes_of(head) == bytes_of(*old(b)).take(at as int),
        bytes_of(*final(b)) == bytes_of(*old(b)).skip(at as int),
{
    b.split_to(at)
}

/// `BytesMut::extend_from_slice`: appends `data`; it panics where the new
/// length would pass `isize::MAX`.
#[verifier::external_body]
pub(crate) fn buffer_extend(b: &mut bytes::BytesMut, data: &[u8])
    requires
        bytes_of(*old(b)).len() + data@.len() <= isize::MAX,
    ensures
        bytes_of(*final(b)) == bytes_of(*old(b)) + data@,
{
    b.extend_from_slice(data)
}

} // verus!
