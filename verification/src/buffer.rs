//! Byte buffers shared with the `bytes` crate.
use vstd::prelude::*;

verus! {

/// `bytes::Bytes`, carried through the library as an opaque value.
#[verifier::external_type_specification]
#[verifier::external_body]
pub struct ExBytes(bytes::Bytes);

/// The bytes that a `bytes::Bytes` holds, in order.
pub uninterp spec fn bytes_view(b: bytes::Bytes) -> Seq<u8>;

/// Copies the contents of a `Bytes` into a fresh vector (`<[u8]>::to_vec`
/// through `Bytes`'s `Deref<Target = [u8]>`): the vector holds exactly the
/// bytes of `b`.
#[verifier::external_body]
pub(crate) fn bytes_to_vec(b: &bytes::Bytes) -> (v: Vec<u8>)
    ensures
        v@ == bytes_view(*b),
{
    b.to_vec()
}

/// `bytes::Bytes::len`: the number of bytes it holds.
#[verifier::external_body]
pub(crate) fn bytes_len(b: &bytes::Bytes) -> (n: usize)
    ensures
        n == bytes_view(*b).len(),
{
    b.len()
}

/// `bytes::Bytes::copy_from_slice`: a new `Bytes` holding a copy of `s`.
#[verifier::external_body]
pub(crate) fn bytes_copy_from_slice(s: &[u8]) -> (b: bytes::Bytes)
    ensures
        bytes_view(b) == s@,
{
    bytes::Bytes::copy_from_slice(s)
}

/// `<bytes::Bytes as From<Vec<u8>>>::from`: a `Bytes` that takes over the
/// vector's contents.
#[verifier::external_body]
pub(crate) fn bytes_from_vec(v: Vec<u8>) -> (b: bytes::Bytes)
    ensures
        bytes_view(b) == v@,
{
    bytes::Bytes::from(v)
}

} // verus!
