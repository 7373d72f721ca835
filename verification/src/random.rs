//! The random choices of a run, drawn from a generator that is seeded once.

use vstd::prelude::*;
use rand::rngs::StdRng;
use rand::seq::SliceRandom;
use rand::Rng;
use rand::SeedableRng;

verus! {

#[verifier::external_type_specification]
#[verifier::external_body]
pub struct ExStdRng(StdRng);

/// Calls `StdRng::seed_from_u64` of the rand crate. Nothing is claimed of
/// the generator that it makes.
#[verifier::external_body]
pub(crate) fn seeded(seed: u64) -> (rng: StdRng) {
    StdRng::seed_from_u64(seed)
}

/// Calls `Rng::gen_range` of the rand crate on the range `0..bound`. The
/// call panics on an empty range, which `requires` leaves out; the number
/// that it returns lies in the range. Which number it is depends on the
/// state of the generator, and nothing is claimed of that.
#[verifier::external_body]
pub(crate) fn pick_below(rng: &mut StdRng, bound: usize) -> (pick: usize)
    requires
        bound > 0,
    ensures
        pick < bound,
{
    rng.gen_range(0..bound)
}

/// Calls `SliceRandom::shuffle` of the rand crate on the offsets. The call
/// only swaps elements, so the offsets afterwards are those from before in
/// some order; which order depends on the state of the generator.
#[verifier::external_body]
pub(crate) fn shuffle_in_place(offsets: &mut Vec<u64>, rng: &mut StdRng)
    ensures
        final(offsets)@.to_multiset() == old(offsets)@.to_multiset(),
        final(offsets)@.len() == old(offsets)@.len(),
{
    offsets.shuffle(rng)
}

} // verus!
