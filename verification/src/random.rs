//! The random source that generation draws from.

use rand::rngs::StdRng;
use rand::{Rng, SeedableRng};
use vstd::prelude::*;

verus! {

/// `StdRng` of `rand`, the generator behind a random source. Nothing of its
/// state is known to the proofs.
#[verifier::external_type_specification]
#[verifier::external_body]
pub struct ExStdRng(rand::rngs::StdRng);

/// Calls `SeedableRng::seed_from_u64` of `rand` for `StdRng`. Nothing is
/// claimed of the generator that comes back.
#[verifier::external_body]
fn seeded_generator(seed: u64) -> StdRng {
    StdRng::seed_from_u64(seed)
}

/// Calls `Rng::gen_range` of `rand` on the range `0..bound`. The claim is
/// the one that `rand` documents: the range must not be empty, and the
/// sample lies in it.
#[verifier::external_body]
fn sample_below(generator: &mut StdRng, bound: usize) -> (index: usize)
    requires
        bound > 0,
    ensures
        index < bound,
{
    generator.gen_range(0..bound)
}

/// Calls `Rng::gen_ratio` of `rand`. The claim is the one that `rand`
/// documents: the denominator must not be zero nor smaller than the
/// numerator; odds of zero never hit, and even odds always hit.
#[verifier::external_body]
fn sample_ratio(generator: &mut StdRng, numerator: u32, denominator: u32) -> (hit: bool)
    requires
        denominator > 0,
        numerator <= denominator,
    ensures
        numerator == 0 ==> !hit,
        numerator == denominator ==> hit,
{
    generator.gen_ratio(numerator, denominator)
}

/// A uniform random source. Two sources made from the same seed give the
/// same draws to the same sequence of calls.
pub struct RandomSource {
    generator: StdRng,
}

impl RandomSource {
    /// A source that is determined by `seed`.
    pub fn seeded(seed: u64) -> RandomSource {
        RandomSource { generator: seeded_generator(seed) }
    }

    /// A uniform draw from `0..bound`.
    pub fn below(&mut self, bound: usize) -> (index: usize)
        requires
            bound > 0,
        ensures
            index < bound,
    {
        sample_below(&mut self.generator, bound)
    }

    /// `true` with probability `numerator / denominator`.
    pub fn chance(&mut self, numerator: u32, denominator: u32) -> (hit: bool)
        requires
            denominator > 0,
            numerator <= denominator,
        ensures
            numerator == 0 ==> !hit,
            numerator == denominator ==> hit,
    {
        sample_ratio(&mut self.generator, numerator, denominator)
    }
}

} // verus!
