//! The random source of the generator: the generator of `macroquad::rand`,
//! which the caller creates and seeds.  Nothing here is proved; each item
//! says what it takes on trust.

use vstd::prelude::*;
use macroquad::rand::RandGenerator;

verus! {

/// The state of one pseudo-random sequence.  The library hands it on and
/// never looks inside.
#[verifier::external_type_specification]
#[verifier::external_body]
pub struct ExRandGenerator(macroquad::rand::RandGenerator);

/// The largest upper end for which `rand_range` keeps its promise.
pub const RANGE_LIMIT: usize = 2097152;

/// `RandGenerator::new`: a generator in its initial state.  Nothing is
/// claimed of it.
pub assume_specification[ macroquad::rand::RandGenerator::new ]() -> (rng: RandGenerator);

/// `RandGenerator::srand`: restarts the sequence from `seed`.  Nothing is
/// claimed of what follows but what `rand_range` says of every draw.
pub assume_specification[ macroquad::rand::RandGenerator::srand ](rng: &RandGenerator, seed: u64);

/// `RandGenerator::gen_range` on `usize`: a draw from `low..high`.
///
/// The outside function scales a 32-bit draw `k` to
/// `low + (high - low) * k / 2^32` in double precision and truncates.  Up to
/// `RANGE_LIMIT` (2^21) every step of that is exact, so the result is at
/// least `low` and below `high`.  Which value comes is not stated: two calls
/// may differ.
#[verifier::external_body]
pub(crate) fn rand_range(rng: &RandGenerator, low: usize, high: usize) -> (r: usize)
    requires
        low < high,
        high <= RANGE_LIMIT,
    ensures
        low <= r < high,
{
    rng.gen_range(low, high)
}

} // verus!
