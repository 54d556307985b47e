//! Random draws.
//!
//! Every draw the library makes goes through one of the three functions
//! below. Their bodies call the `rand` crate and are believed, not verified;
//! each contract states only what `rand` documents of every outcome.

use vstd::prelude::*;

verus! {

/// The denominator of every probability the library handles: a probability
/// is a number of parts per million.
pub const PROBABILITY_ONE: u32 = 1_000_000;

/// Calls `rand::Rng::gen_range` on the thread-local generator with the range
/// `0..bound`. `rand` documents that the result lies in the range and that an
/// empty range panics, so `bound` must be positive.
#[verifier::external_body]
pub(crate) fn random_below(bound: usize) -> (r: usize)
    requires
        bound > 0,
    ensures
        r < bound,
{
    rand::Rng::gen_range(&mut rand::thread_rng(), 0..bound)
}

/// Calls `rand::Rng::gen_ratio` on the thread-local generator. `rand`
/// documents a panic for a zero denominator or a numerator above it, a
/// certain `true` when the two are equal and a certain `false` for a zero
/// numerator; between the two every outcome is possible.
#[verifier::external_body]
pub(crate) fn random_ratio(numerator: u32, denominator: u32) -> (r: bool)
    requires
        0 < denominator,
        numerator <= denominator,
    ensures
        numerator == denominator ==> r,
        numerator == 0 ==> !r,
{
    rand::Rng::gen_ratio(&mut rand::thread_rng(), numerator, denominator)
}

/// Calls `rand::Rng::gen` for a `u32` on the thread-local generator. Any
/// value may come back.
#[verifier::external_body]
pub(crate) fn random_bits() -> u32 {
    rand::Rng::gen(&mut rand::thread_rng())
}

/// A probability scaled by a whole multiplier and capped at certainty.
pub open spec fn scaled_probability(p: u32, multiplier: u32) -> int {
    if p * multiplier >= PROBABILITY_ONE {
        PROBABILITY_ONE as int
    } else {
        p * multiplier
    }
}

/// Scales a probability by a multiplier, capped at [`PROBABILITY_ONE`].
pub fn adjust_prob(p: u32, multiplier: u32) -> (r: u32)
    ensures
        r == scaled_probability(p, multiplier),
        r <= PROBABILITY_ONE,
{
    assert(p * multiplier <= 0xFFFF_FFFF * 0xFFFF_FFFF) by (nonlinear_arith)
        requires
            0 <= p <= 0xFFFF_FFFF,
            0 <= multiplier <= 0xFFFF_FFFF,
    ;
    let wide: u64 = (p as u64) * (multiplier as u64);
    if wide >= PROBABILITY_ONE as u64 {
        PROBABILITY_ONE
    } else {
        wide as u32
    }
}

/// Rolls for an event of probability `p` parts per million scaled by
/// `multiplier`. A scaled probability of zero never happens and one of a
/// million or more always does.
pub fn roll(p: u32, multiplier: u32) -> (r: bool)
    ensures
        scaled_probability(p, multiplier) == PROBABILITY_ONE ==> r,
        scaled_probability(p, multiplier) == 0 ==> !r,
{
    random_ratio(adjust_prob(p, multiplier), PROBABILITY_ONE)
}

/// Whether a roll of probability `p` scaled by `multiplier` may come up.
pub open spec fn may_happen(p: u32, multiplier: u32) -> bool {
    scaled_probability(p, multiplier) > 0
}

/// An even coin.
pub fn coin() -> bool {
    random_ratio(1, 2)
}

} // verus!
