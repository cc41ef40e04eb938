//! The byte containers of the `bytes` crate as this library sees them.
//!
//! `Bytes` and `BytesMut` are opaque to the verifier. Everything the rest of
//! the library knows about them is written down here: a name for what each
//! container holds, and one contract per method that is called. None of these
//! contracts is proved; they restate what the crate documents.

use bytes::{Bytes, BytesMut};
use vstd::prelude::*;

verus! {

/// `bytes::Bytes`, a shared handle to bytes that no longer change.
#[verifier::external_type_specification]
#[verifier::external_body]
pub struct ExBytes(bytes::Bytes);

/// `bytes::BytesMut`, a buffer that grows at its end and is consumed from
/// its front.
#[verifier::external_type_specification]
#[verifier::external_body]
pub struct ExBytesMut(bytes::BytesMut);

/// The bytes that a `Bytes` handle refers to, in order.
pub uninterp spec fn bytes_contents(b: Bytes) -> Seq<u8>;

/// The bytes currently held by a `BytesMut`, in order.
pub uninterp spec fn buf_contents(b: BytesMut) -> Seq<u8>;

/// `Bytes::clone`: the new handle refers to the same bytes.
pub assume_specification[ <Bytes as Clone>::clone ](b: &Bytes) -> (c: Bytes)
    ensures
        bytes_contents(c) == bytes_contents(*b),
;

/// `Bytes::from(Vec<u8>)`: the handle refers to exactly the bytes of the vector.
#[verifier::external_body]
pub(crate) fn bytes_from_vec(v: Vec<u8>) -> (b: Bytes)
    ensures
        bytes_contents(b) == v@,
{
    Bytes::from(v)
}

/// `Bytes` dereferenced to a slice: the slice shows the bytes the handle refers to.
#[verifier::external_body]
pub(crate) fn bytes_as_slice(b: &Bytes) -> (s: &[u8])
    ensures
        s@ == bytes_contents(*b),
{
    b.as_ref()
}

/// `Bytes::len`: the number of bytes the handle refers to.
#[verifier::external_body]
pub(crate) fn bytes_len(b: &Bytes) -> (n: usize)
    ensures
        n == bytes_contents(*b).len(),
{
    b.len()
}

/// `BytesMut::with_capacity`: a buffer that holds no bytes yet. The standard
/// vector behind it refuses capacities above `isize::MAX`.
#[verifier::external_body]
pub(crate) fn buf_with_capacity(capacity: usize) -> (b: BytesMut)
    requires
        capacity <= isize::MAX,
    ensures
        buf_contents(b) == Seq::<u8>::empty(),
{
    BytesMut::with_capacity(capacity)
}

/// `BytesMut::len`: the number of bytes held.
#[verifier::external_body]
pub(crate) fn buf_len(b: &BytesMut) -> (n: usize)
    ensures
        n == buf_contents(*b).len(),
{
    b.len()
}

/// `BytesMut` dereferenced to a slice: the slice shows the bytes held.
#[verifier::external_body]
pub(crate) fn buf_as_slice(b: &BytesMut) -> (s: &[u8])
    ensures
        s@ == buf_contents(*b),
{
    b.as_ref()
}

/// `BytesMut::extend_from_slice`: the given bytes are appended to those held.
/// The call panics when the new length overflows what a vector can hold.
#[verifier::external_body]
pub(crate) fn buf_extend_from_slice(b: &mut BytesMut, extend: &[u8])
    requires
        buf_contents(*old(b)).len() + extend@.len() <= isize::MAX,
    ensures
        buf_contents(*final(b)) == buf_contents(*old(b)) + extend@,
{
    b.extend_from_slice(extend)
}

/// `BytesMut::split_to`: the first `at` bytes leave the buffer and are
/// returned; the buffer keeps the rest. The call panics when `at` is past the
/// end.
#[verifier::external_body]
pub(crate) fn buf_split_to(b: &mut BytesMut, at: usize) -> (head: BytesMut)
    requires
        at <= buf_contents(*old(b)).len(),
    ensures
        buf_contents(head) == buf_contents(*old(b)).take(at as int),
        buf_contents(*final(b)) == buf_contents(*old(b)).skip(at as int),
{
    b.split_to(at)
}

/// `BytesMut::clear`: the buffer holds no bytes afterwards.
#[verifier::external_body]
pub(crate) fn buf_clear(b: &mut BytesMut)
    ensures
        buf_contents(*final(b)) == Seq::<u8>::empty(),
{
    b.clear()
}

/// `BytesMut::freeze`: the immutable handle refers to the bytes the buffer held.
#[verifier::external_body]
pub(crate) fn buf_freeze(b: BytesMut) -> (frozen: Bytes)
    ensures
        bytes_contents(frozen) == buf_contents(b),
{
    b.freeze()
}

} // verus!
