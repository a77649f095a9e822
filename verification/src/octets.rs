//! Byte strings: what the library relies on of `bytes::Bytes`.
use bytes::Bytes;
use vstd::prelude::*;

verus! {

/// The reference-counted byte string of the `bytes` crate.
#[verifier::external_type_specification]
#[verifier::external_body]
pub struct ExBytes(Bytes);

/// The bytes that a `Bytes` holds.
pub uninterp spec fn octets(b: Bytes) -> Seq<u8>;

/// Trusted: `Bytes::len` is the number of bytes held.
pub assume_specification[ Bytes::len ](b: &Bytes) -> (n: usize)
    ensures
        n == octets(*b).len(),
;

/// Trusted: `Bytes::clone` makes a second handle on the same bytes.
pub assume_specification[ <Bytes as Clone>::clone ](b: &Bytes) -> (copy: Bytes)
    ensures
        octets(copy) == octets(*b),
;

/// Trusted: `Bytes::from`, given a vector, holds the vector's bytes.
#[verifier::external_body]
pub(crate) fn bytes_from(data: Vec<u8>) -> (b: Bytes)
    ensures
        octets(b) == data@,
{
    Bytes::from(data)
}

/// Trusted: `Bytes::as_ref` is the slice of the bytes held.
#[verifier::external_body]
pub(crate) fn slice_of(b: &Bytes) -> (slice: &[u8])
    ensures
        slice@ == octets(*b),
{
    b.as_ref()
}

/// The bytes of each of a sequence of byte strings.
pub open spec fn octets_all(list: Seq<Bytes>) -> Seq<Seq<u8>> {
    Seq::new(list.len(), |i: int| octets(list[i]))
}

/// The bytes of an optional byte string.
pub open spec fn octets_opt(b: Option<Bytes>) -> Option<Seq<u8>> {
    match b {
        Some(b) => Some(octets(b)),
        None => None,
    }
}

} // verus!
