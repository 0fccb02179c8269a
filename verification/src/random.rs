//! Draws from the thread-local random number generator of `rand`.

use rand::Rng;
use vstd::prelude::*;

verus! {

/// Calls `rand::Rng::gen_range(low, high)` on `rand::thread_rng()`.
///
/// The draw is chance: the contract only states that it lies in `low..high`,
/// which is the range `gen_range` samples from. `gen_range` panics when
/// `low >= high`, so that input is left out.
#[verifier::external_body]
pub(crate) fn random_below(low: usize, high: usize) -> (r: usize)
    requires
        low < high,
    ensures
        low <= r < high,
{
    rand::thread_rng().gen_range(low, high)
}

/// Calls `rand::Rng::gen_ratio(numerator, denominator)` on `rand::thread_rng()`:
/// `true` with probability `numerator / denominator`.
///
/// The draw is chance; the contract states the two outcomes that the crate's
/// documentation guarantees (always `false` for a zero numerator, always
/// `true` when numerator and denominator agree). `gen_ratio` panics when the
/// denominator is zero or below the numerator, so those inputs are left out.
#[verifier::external_body]
pub(crate) fn random_ratio(numerator: u32, denominator: u32) -> (b: bool)
    requires
        0 < denominator,
        numerator <= denominator,
    ensures
        numerator == 0 ==> !b,
        numerator == denominator ==> b,
{
    rand::thread_rng().gen_ratio(numerator, denominator)
}

} // verus!
