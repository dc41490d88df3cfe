//! The source of randomness of the generator: a seedable generator of an
//! outside crate. A seed fixes the generator; of what a generator draws
//! nothing is known but the bounds.

use vstd::prelude::*;
use rand::rngs::{OsRng, StdRng};
use rand::seq::SliceRandom;
use rand::{Rng, SeedableRng};
use crate::common::{AppError, ErrorKind};
use crate::direction::Direction;

verus! {

#[verifier::external_type_specification]
#[verifier::external_body]
pub struct ExStdRng(StdRng);

/// The generator that a seed gives.
pub uninterp spec fn seeded_generator(seed: u64) -> StdRng;

/// Calls `StdRng::seed_from_u64` of rand, which computes the state of the
/// new generator from the seed and from nothing else: the same seed gives
/// the same generator.
#[verifier::external_body]
fn rng_from_seed(seed: u64) -> (rng: StdRng)
    ensures
        rng == seeded_generator(seed),
{
    StdRng::seed_from_u64(seed)
}

/// Calls `StdRng::from_rng` of rand on the generator of the operating
/// system: a generator seeded from there, or nothing where the operating
/// system gives no randomness.
#[verifier::external_body]
fn rng_from_os() -> Option<StdRng> {
    StdRng::from_rng(OsRng).ok()
}

/// Calls `Rng::gen_range` of rand with the range from `low` up to, not
/// including, `high`: the number drawn lies in that range. The range must
/// not be empty.
#[verifier::external_body]
fn rng_range(rng: &mut StdRng, low: usize, high: usize) -> (drawn: usize)
    requires
        low < high,
    ensures
        low <= drawn < high,
{
    rng.gen_range(low..high)
}

/// Calls `SliceRandom::shuffle` of rand, which swaps elements of the slice:
/// afterwards the vector holds what it held, in some order.
#[verifier::external_body]
fn rng_shuffle(rng: &mut StdRng, directions: &mut Vec<Direction>)
    ensures
        final(directions)@.to_multiset() == old(directions)@.to_multiset(),
{
    directions.shuffle(rng)
}

/// The source of the random choices of the generator.
pub struct RandomSource {
    rng: StdRng,
}

impl RandomSource {
    /// A source whose choices are fixed by the seed: the same seed gives
    /// the same maze.
    pub fn from_seed(seed: u64) -> (source: RandomSource)
        ensures
            source.generator() == seeded_generator(seed),
    {
        RandomSource { rng: rng_from_seed(seed) }
    }

    /// A source seeded by the operating system, or a `General` error where
    /// the operating system gives no randomness.
    pub fn from_os() -> (r: Result<RandomSource, AppError>)
        ensures
            r matches Err(e) ==> e.kind == ErrorKind::General,
    {
        Self::from_generator(rng_from_os())
    }

    /// The generator that the source draws from, as it stands.
    pub closed spec fn generator(&self) -> StdRng {
        self.rng
    }

    /// The source that draws from the given generator, or a `General`
    /// error where there is none to draw from.
    pub fn from_generator(generator: Option<StdRng>) -> (r: Result<RandomSource, AppError>)
        ensures
            match generator {
                Some(rng) => r matches Ok(source) && source.generator() == rng,
                None => r matches Err(e) && e.kind == ErrorKind::General && e.details@
                    == "The operating system gives no randomness"@,
            },
    {
        match generator {
            Some(rng) => Ok(RandomSource { rng }),
            None => Err(AppError::new("The operating system gives no randomness")),
        }
    }

    /// Draws a number from `low` up to, not including, `high`.
    pub fn below(&mut self, low: usize, high: usize) -> (drawn: usize)
        requires
            low < high,
        ensures
            low <= drawn < high,
    {
        rng_range(&mut self.rng, low, high)
    }

    /// Puts the directions in a random order.
    pub fn shuffle(&mut self, directions: &mut Vec<Direction>)
        ensures
            final(directions)@.to_multiset() == old(directions)@.to_multiset(),
    {
        rng_shuffle(&mut self.rng, directions)
    }
}

} // verus!
