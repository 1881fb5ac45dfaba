//! Randomness, from the `rand` crate.

use rand::{Rng, RngCore};
use vstd::prelude::*;

verus! {

/// `rand::Rng::random_range` on the thread's generator gives a number within the range. It
/// panics on an empty range, which is left out. Which number comes is chance.
#[verifier::external_body]
pub(crate) fn random_between(low: u64, high: u64) -> (n: u64)
    requires
        low <= high,
    ensures
        low <= n <= high,
{
    rand::rng().random_range(low..=high)
}

/// `rand::RngCore::fill_bytes` on the thread's generator. Nothing holds of the bytes but that
/// there are eight of them.
#[verifier::external_body]
pub(crate) fn random_salt() -> (salt: [u8; 8]) {
    let mut salt = [0u8; 8];
    rand::rng().fill_bytes(&mut salt);
    salt
}

} // verus!
