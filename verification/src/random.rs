//! The random numbers that the library takes from the crate `rand`.

use crate::tiles::Tile;
use rand::Rng;
use rand::rngs::StdRng;
use rand::SeedableRng;
use rand::seq::IteratorRandom;
use rand::seq::SliceRandom;
use vstd::prelude::*;

verus! {

/// A source of random numbers, from the crate `rand`.
#[verifier::external_type_specification]
#[verifier::external_body]
pub struct ExStdRng(StdRng);

/// The generator that `StdRng::seed_from_u64` makes from a seed.
pub uninterp spec fn spec_seeded(seed: u64) -> StdRng;

/// Calls `StdRng::seed_from_u64`, which makes a generator from a seed
/// and from nothing else: the same seed gives the same generator.
/// Nothing is claimed of the numbers that the generator gives.
#[verifier::external_body]
pub(crate) fn seeded(seed: u64) -> (rng: StdRng)
    ensures
        rng == spec_seeded(seed),
{
    StdRng::seed_from_u64(seed)
}

/// Calls `SliceRandom::shuffle`, which swaps the tiles of the list among
/// themselves: the list holds the same tiles afterwards, in an order that
/// depends on the generator.
#[verifier::external_body]
pub(crate) fn shuffle(tiles: &mut Vec<Tile>, rng: &mut StdRng)
    ensures
        final(tiles)@.to_multiset() == old(tiles)@.to_multiset(),
{
    tiles.shuffle(rng);
}

/// Calls `Rng::gen_range`, which gives a number from the lower bound up
/// to, and without, the upper, as the generator has it. It panics where
/// the lower bound is not below the upper.
#[verifier::external_body]
pub(crate) fn in_range(rng: &mut StdRng, low: usize, high: usize) -> (n: usize)
    requires
        low < high,
    ensures
        low <= n < high,
{
    rng.gen_range(low, high)
}

/// Calls `IteratorRandom::choose_multiple` on the letters of a text,
/// which gives as many of them as asked for, or all where there are
/// fewer, in an order that depends on the generator.
#[verifier::external_body]
pub(crate) fn choose_letters(letters: &str, amount: usize, rng: &mut StdRng) -> (chosen: String)
    ensures
        chosen@.len() == (if amount <= letters@.len() { amount as int } else { letters@.len() as int }),
{
    letters.chars().choose_multiple(rng, amount).iter().collect()
}

} // verus!
