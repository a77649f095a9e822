//! Random choices: what the library relies on of `fastrand`.
use vstd::prelude::*;

verus! {

/// Trusted: `fastrand::u32` over the full range returns some number.
#[verifier::external_body]
pub(crate) fn random_u32() -> (roll: u32) {
    fastrand::u32(..)
}

/// Trusted: `fastrand::usize` over the numbers below `bound` returns one of them. It panics
/// where there is none.
#[verifier::external_body]
pub(crate) fn random_below(bound: usize) -> (pick: usize)
    requires
        bound > 0,
    ensures
        pick < bound,
{
    fastrand::usize(..bound)
}

} // verus!
