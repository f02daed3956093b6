//! Trusted boundary to the `rand` crate: the seeded pseudo-random generator
//! that the simulation driver owns and threads through every sampling call.

use vstd::prelude::*;

verus! {

#[verifier::external_type_specification]
#[verifier::external_body]
pub struct ExStdRng(rand::rngs::StdRng);

/// Relies on `rand::SeedableRng::seed_from_u64` for `rand::rngs::StdRng`:
/// builds a generator from a 64-bit seed.
#[verifier::external_body]
pub(crate) fn rng_from_seed(seed: u64) -> rand::rngs::StdRng {
    <rand::rngs::StdRng as rand::SeedableRng>::seed_from_u64(seed)
}

/// Relies on `rand::Rng::gen_range` over a half-open `usize` range: the
/// sample lies in the range.  An empty range panics there, so it is excluded.
#[verifier::external_body]
pub(crate) fn rng_below(rng: &mut rand::rngs::StdRng, lo: usize, hi: usize) -> (r: usize)
    requires
        lo < hi,
    ensures
        lo <= r < hi,
{
    rand::Rng::gen_range(rng, lo..hi)
}

/// Relies on `rand::Rng::gen_ratio`: a Bernoulli draw that is true with
/// probability `numerator / denominator`.  It panics for a zero denominator
/// or a ratio above one, so those are excluded; a numerator of zero is
/// documented to always give false, a ratio of one to always give true.
#[verifier::external_body]
pub(crate) fn rng_ratio(rng: &mut rand::rngs::StdRng, numerator: u32, denominator: u32) -> (r: bool)
    requires
        0 < denominator,
        numerator <= denominator,
    ensures
        numerator == 0 ==> !r,
        numerator == denominator ==> r,
{
    rand::Rng::gen_ratio(rng, numerator, denominator)
}

} // verus!
