//! Refcounted immutable byte buffers, backed by the `bytes` crate.
//!
//! Page images and WAL record payloads are stored as `bytes::Bytes` values:
//! cloning one shares the underlying buffer instead of copying it, so a WAL
//! record attached to several index entries costs one allocation. Verified
//! code reads a buffer's contents only through the `bytes_view` abstraction
//! below.

use vstd::prelude::*;

verus! {

/// `bytes::Bytes` is declared opaquely; its contents are exposed to
/// contracts only through `bytes_view`.
#[verifier::external_type_specification]
#[verifier::external_body]
pub struct ExBytes(bytes::Bytes);

/// The byte contents of a `bytes::Bytes` buffer, oldest-offset first.
pub uninterp spec fn bytes_view(b: bytes::Bytes) -> Seq<u8>;

/// Relies on `Bytes::from(Vec<u8>)`: the buffer holds exactly the vector's
/// bytes.
#[verifier::external_body]
pub fn bytes_from_vec(v: Vec<u8>) -> (r: bytes::Bytes)
    ensures
        bytes_view(r) == v@,
{
    bytes::Bytes::from(v)
}

/// Relies on `Bytes::clone`: the clone shares the refcounted buffer and
/// holds the same bytes.
#[verifier::external_body]
pub fn bytes_clone(b: &bytes::Bytes) -> (r: bytes::Bytes)
    ensures
        bytes_view(r) == bytes_view(*b),
{
    b.clone()
}

/// The contents of an optional buffer.
pub open spec fn option_bytes_view(b: Option<bytes::Bytes>) -> Option<Seq<u8>> {
    match b {
        None => None,
        Some(bb) => Some(bytes_view(bb)),
    }
}

} // verus!
