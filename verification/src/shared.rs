//! Shared byte handles of the `bytes` crate.

use vstd::prelude::*;

verus! {

/// Declares `bytes::Bytes`, a shared handle on immutable bytes.
#[verifier::external_type_specification]
#[verifier::external_body]
pub struct ExBytes(bytes::Bytes);

/// The bytes that a handle stands for.
pub uninterp spec fn contents(handle: bytes::Bytes) -> Seq<u8>;

/// Calls `Bytes::as_ref`: the slice holds the bytes of the handle.
#[verifier::external_body]
pub(crate) fn bytes_as_slice(handle: &bytes::Bytes) -> (slice: &[u8])
    ensures
        slice@ == contents(*handle),
{
    handle.as_ref()
}

/// Calls `Bytes::from` on a vector: the handle stands for the bytes of the vector.
#[verifier::external_body]
pub(crate) fn bytes_from_vec(vector: Vec<u8>) -> (handle: bytes::Bytes)
    ensures
        contents(handle) == vector@,
{
    bytes::Bytes::from(vector)
}

/// Calls `Bytes::copy_from_slice`: the handle stands for a copy of the slice.
#[verifier::external_body]
pub(crate) fn bytes_copied(slice: &[u8]) -> (handle: bytes::Bytes)
    ensures
        contents(handle) == slice@,
{
    bytes::Bytes::copy_from_slice(slice)
}

/// Calls `Bytes::clone`: both handles stand for the same bytes.
#[verifier::external_body]
pub(crate) fn bytes_shared(handle: &bytes::Bytes) -> (shared: bytes::Bytes)
    ensures
        contents(shared) == contents(*handle),
{
    handle.clone()
}

} // verus!
