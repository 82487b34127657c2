//! Draws from the thread-local random source of `rand`.

use rand::Rng;
use vstd::prelude::*;

verus! {

/// Relies on `rand::Rng::gen_range` (on `thread_rng`): a value of the half-open range `lo..hi`,
/// which must not be empty.
#[verifier::external_body]
pub(crate) fn random_below(lo: u64, hi: u64) -> (r: u64)
    requires
        lo < hi,
    ensures
        lo <= r < hi,
{
    rand::thread_rng().gen_range(lo..hi)
}

/// Relies on `rand::Rng::gen` (on `thread_rng`): any byte.
#[verifier::external_body]
pub(crate) fn random_byte() -> (r: u8) {
    rand::thread_rng().gen::<u8>()
}

/// Relies on `rand::Rng::gen_ratio` (on `thread_rng`): `true` with probability
/// `numerator / denominator`; never for a numerator of zero, always when the two are equal.
#[verifier::external_body]
pub(crate) fn random_ratio(numerator: u32, denominator: u32) -> (r: bool)
    requires
        0 < denominator,
        numerator <= denominator,
    ensures
        numerator == 0 ==> !r,
        numerator == denominator ==> r,
{
    rand::thread_rng().gen_ratio(numerator, denominator)
}

} // verus!
