//! The randomness seam: every call into the rand crate stands here, behind a
//! contract.  Digit shuffling drives the solver's candidate order; uniform
//! cell coordinates drive puzzle generation.

use vstd::prelude::*;
use rand::Rng;
use rand::SeedableRng;
use rand::seq::SliceRandom;

verus! {

#[verifier::external_type_specification]
#[verifier::external_body]
pub struct ExStdRng(rand::rngs::StdRng);

/// Where the digit shuffles draw their randomness from: fresh process
/// entropy on every shuffle, or a seeded generator for reproducible runs.
pub enum RandomSource {
    Entropy,
    Seeded(rand::rngs::StdRng),
}

/// Relies on rand's SeedableRng::seed_from_u64 for StdRng: builds a
/// deterministic generator from the seed.
#[verifier::external_body]
pub fn seeded_rng(seed: u64) -> rand::rngs::StdRng {
    rand::rngs::StdRng::seed_from_u64(seed)
}

/// Relies on rand's SliceRandom::shuffle, drawing from a fresh
/// rand::thread_rng(): a Fisher-Yates pass that swaps elements in place, so
/// the vector afterwards holds exactly the elements it held before,
/// possibly reordered.
#[verifier::external_body]
fn shuffle_with_entropy(v: &mut Vec<u8>)
    ensures
        final(v)@.to_multiset() == old(v)@.to_multiset(),
{
    v.shuffle(&mut rand::thread_rng());
}

/// Relies on rand's SliceRandom::shuffle, as shuffle_with_entropy does, but
/// drawing from the given generator.
#[verifier::external_body]
fn shuffle_with_rng(v: &mut Vec<u8>, rng: &mut rand::rngs::StdRng)
    ensures
        final(v)@.to_multiset() == old(v)@.to_multiset(),
{
    v.shuffle(rng);
}

/// Reorders the vector's elements at random, drawing from the given source.
pub fn shuffle(v: &mut Vec<u8>, src: &mut RandomSource)
    ensures
        final(v)@.to_multiset() == old(v)@.to_multiset(),
{
    match src {
        RandomSource::Entropy => shuffle_with_entropy(v),
        RandomSource::Seeded(rng) => shuffle_with_rng(v, rng),
    }
}

/// Relies on rand's Rng::gen_range, drawing from a fresh rand::thread_rng():
/// a value uniformly below the bound.  gen_range panics on an empty range,
/// so the bound must be positive.
#[verifier::external_body]
pub fn random_below(n: usize) -> (r: usize)
    requires
        n > 0,
    ensures
        r < n,
{
    rand::thread_rng().gen_range(0..n)
}

} // verus!
