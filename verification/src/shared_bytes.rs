//! Shared byte buffers of the `bytes` crate.

use bytes::Bytes;
use vstd::prelude::*;

verus! {

/// `bytes::Bytes`, a cheaply cloneable view of immutable memory.
#[verifier::external_type_specification]
#[verifier::external_body]
pub struct ExBytes(Bytes);

/// The bytes that a buffer shows.
pub uninterp spec fn bytes_contents(bytes: Bytes) -> Seq<u8>;

/// Calls `Bytes::from(Vec<u8>)`: the buffer shows the bytes of the vector.
#[verifier::external_body]
pub(crate) fn bytes_from_vec(data: Vec<u8>) -> (bytes: Bytes)
    ensures
        bytes_contents(bytes) == data@,
{
    Bytes::from(data)
}

/// Calls `Bytes::slice`: the new buffer shows the part `[start, end)` of the old one. The call
/// panics on bounds outside the buffer, which are left out.
#[verifier::external_body]
pub(crate) fn bytes_slice(bytes: &Bytes, start: usize, end: usize) -> (part: Bytes)
    requires
        start <= end <= bytes_contents(*bytes).len(),
    ensures
        bytes_contents(part) == bytes_contents(*bytes).subrange(start as int, end as int),
{
    bytes.slice(start..end)
}

/// Calls `<Bytes as AsRef<[u8]>>::as_ref`: the slice holds what the buffer shows.
#[verifier::external_body]
pub(crate) fn bytes_as_slice(bytes: &Bytes) -> (slice: &[u8])
    ensures
        slice@ == bytes_contents(*bytes),
{
    bytes.as_ref()
}

/// Calls `<Bytes as Clone>::clone`: the copy shows the same bytes.
#[verifier::external_body]
pub(crate) fn bytes_clone(bytes: &Bytes) -> (copy: Bytes)
    ensures
        bytes_contents(copy) == bytes_contents(*bytes),
{
    bytes.clone()
}

} // verus!
