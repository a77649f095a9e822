//! Comparison of secrets: what the library relies on of `subtle`.
use subtle::ConstantTimeEq;
use vstd::prelude::*;

verus! {

/// Trusted: `ConstantTimeEq::ct_eq` on two byte slices tells whether they are equal: of the same
/// length, with the same bytes. That it takes the same time whatever the bytes are is not stated.
#[verifier::external_body]
pub(crate) fn same_secret(a: &[u8], b: &[u8]) -> (same: bool)
    ensures
        same == (a@ == b@),
{
    a.ct_eq(b).into()
}

} // verus!
