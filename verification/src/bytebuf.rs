//! Trusted view of `bytes::Bytes`, the reference-counted byte buffer that
//! backs the heap storage variant and every byte view handed to callers.
//! Each wrapper's contract states what the named `bytes` function does to
//! the buffer's contents, as its source shows.

use vstd::prelude::*;

verus! {

#[verifier::external_type_specification]
#[verifier::external_body]
pub struct ExBytes(bytes::Bytes);

/// The byte string a `bytes::Bytes` buffer holds.
pub uninterp spec fn bytes_contents(b: bytes::Bytes) -> Seq<u8>;

/// Relies on `bytes::Bytes::new`: an empty buffer.
#[verifier::external_body]
pub fn bytes_new() -> (r: bytes::Bytes)
    ensures
        bytes_contents(r) == Seq::<u8>::empty(),
{
    bytes::Bytes::new()
}

/// Relies on `impl From<Vec<u8>> for Bytes`: the buffer takes over the
/// vector's bytes unchanged.
#[verifier::external_body]
pub fn bytes_from_vec(v: Vec<u8>) -> (r: bytes::Bytes)
    ensures
        bytes_contents(r) == v@,
{
    bytes::Bytes::from(v)
}

/// Relies on `bytes::Bytes::copy_from_slice`: the buffer holds a copy of
/// the slice.
#[verifier::external_body]
pub fn bytes_copy_from_slice(s: &[u8]) -> (r: bytes::Bytes)
    ensures
        bytes_contents(r) == s@,
{
    bytes::Bytes::copy_from_slice(s)
}

/// Relies on `impl Clone for Bytes`: a new handle to the same bytes.
#[verifier::external_body]
pub fn bytes_clone(b: &bytes::Bytes) -> (r: bytes::Bytes)
    ensures
        bytes_contents(r) == bytes_contents(*b),
{
    b.clone()
}

/// Relies on `bytes::Bytes::len`: the number of bytes the buffer holds.
#[verifier::external_body]
pub fn bytes_len(b: &bytes::Bytes) -> (r: usize)
    ensures
        r == bytes_contents(*b).len(),
{
    b.len()
}

/// Relies on `bytes::Bytes::slice`: a zero-copy sub-view covering exactly
/// the bytes of `[start, end)`. Panics outside the buffer, which the
/// precondition rules out.
#[verifier::external_body]
pub fn bytes_slice(b: &bytes::Bytes, start: usize, end: usize) -> (r: bytes::Bytes)
    requires
        start <= end <= bytes_contents(*b).len(),
    ensures
        bytes_contents(r) == bytes_contents(*b).subrange(start as int, end as int),
{
    b.slice(start..end)
}

/// Relies on `impl AsRef<[u8]> for Bytes`: a borrow of the buffer's bytes.
#[verifier::external_body]
pub fn bytes_as_slice(b: &bytes::Bytes) -> (r: &[u8])
    ensures
        r@ == bytes_contents(*b),
{
    b.as_ref()
}

} // verus!
