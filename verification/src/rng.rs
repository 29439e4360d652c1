//! The seeded random number generator of a model (`rand_pcg::Pcg64Mcg`) and
//! the draws that the model makes from it.

use vstd::prelude::*;
use rand::{RngExt, SeedableRng};
use rand_pcg::Mcg128Xsl64;

verus! {

#[verifier::external_type_specification]
#[verifier::external_body]
pub struct ExMcg128Xsl64(Mcg128Xsl64);

/// The generator that `seed_from_u64` makes from `seed`.
pub uninterp spec fn seeded_generator(seed: u64) -> Mcg128Xsl64;

/// `SeedableRng::seed_from_u64` for `Pcg64Mcg`: a generator that depends on the
/// seed alone (the seed is expanded by a fixed PCG32 step into the 128-bit
/// state).
#[verifier::external_body]
pub(crate) fn seeded(seed: u64) -> (r: Mcg128Xsl64)
    ensures
        r == seeded_generator(seed),
{
    Mcg128Xsl64::seed_from_u64(seed)
}

/// `RngExt::random_range(0..n)`: a number below `n`, drawn uniformly.
/// `random_range` panics on an empty range, hence `n > 0`. Which number comes
/// out depends on the generator's state, which is not modelled; nothing is
/// said of the generator afterwards.
#[verifier::external_body]
pub(crate) fn random_below(rng: &mut Mcg128Xsl64, n: usize) -> (r: usize)
    requires
        n > 0,
    ensures
        r < n,
{
    rng.random_range(0..n)
}

/// `RngExt::random_ratio(numerator, denominator)`: `true` with chance
/// `numerator / denominator`; always `true` where the two are equal, always
/// `false` where the numerator is zero. It panics where the denominator is
/// zero or below the numerator. Otherwise which bit comes out depends on the
/// generator's state, which is not modelled.
#[verifier::external_body]
pub(crate) fn random_ratio(rng: &mut Mcg128Xsl64, numerator: u32, denominator: u32) -> (r: bool)
    requires
        0 < denominator,
        numerator <= denominator,
    ensures
        numerator == denominator ==> r,
        numerator == 0 ==> !r,
{
    rng.random_ratio(numerator, denominator)
}

} // verus!
