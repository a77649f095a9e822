//! Key digests: what the library relies on of `ahash`.
use ahash::AHasher;
use std::hash::Hasher;
use vstd::prelude::*;

verus! {

/// The streaming hasher of the `ahash` crate.
#[verifier::external_type_specification]
#[verifier::external_body]
pub struct ExAHasher(AHasher);

/// The digest that a hasher in the state `seed` gives for the bytes `key`.
pub uninterp spec fn key_digest(seed: AHasher, key: Seq<u8>) -> u64;

/// Trusted: `AHasher::default` makes a hasher with the keys of this process. Nothing is said of
/// those keys.
#[verifier::external_body]
pub(crate) fn process_hasher() -> (seed: AHasher) {
    AHasher::default()
}

/// Trusted: what `AHasher::finish` returns once a copy of `seed` was given `key` by
/// `AHasher::write` depends on the state of `seed` and on the bytes of `key` alone.
#[verifier::external_body]
pub(crate) fn digest(seed: &AHasher, key: &[u8]) -> (value: u64)
    ensures
        value == key_digest(*seed, key@),
{
    let mut hasher = seed.clone();
    hasher.write(key);
    hasher.finish()
}

} // verus!
