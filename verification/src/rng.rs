//! Deterministic random generator, kept behind trusted declarations.
//!
//! Reproducibility is a hard requirement of the engine: a `State` seeds its
//! generator with a fixed constant, so identical inputs produce identical
//! random choices. `rand::rngs::StdRng` (for a pinned version of `rand`) is
//! a pure function of its seed and of how many values were drawn, which the
//! names below record.

use vstd::prelude::*;

verus! {

#[verifier::external_type_specification]
#[verifier::external_body]
pub struct ExStdRng(rand::rngs::StdRng);

/// The seed a generator was created from.
pub uninterp spec fn rng_seed(r: rand::rngs::StdRng) -> u64;

/// How many values have been drawn from the generator so far.
pub uninterp spec fn rng_drawn(r: rand::rngs::StdRng) -> nat;

/// The value of draw number `n` (counted from 0) of a generator seeded with
/// `seed`: for a pinned generator this depends on the seed and the draw
/// position alone.
pub uninterp spec fn rng_draw(seed: u64, n: nat) -> u64;

/// Relies on rand's `SeedableRng::seed_from_u64` for `StdRng`: creates a
/// generator that is a deterministic function of the seed.
#[verifier::external_body]
pub fn rng_from_seed(seed: u64) -> (r: rand::rngs::StdRng)
    ensures
        rng_seed(r) == seed,
        rng_drawn(r) == 0,
{
    <rand::rngs::StdRng as rand::SeedableRng>::seed_from_u64(seed)
}

/// Relies on rand's `RngCore::next_u64` for `StdRng`: advances the generator
/// by one draw and returns the draw's value, which for a fixed seed depends
/// only on how many values were drawn before it.
#[verifier::external_body]
pub fn rng_next_u64(r: &mut rand::rngs::StdRng) -> (v: u64)
    ensures
        rng_seed(*final(r)) == rng_seed(*old(r)),
        rng_drawn(*final(r)) == rng_drawn(*old(r)) + 1,
        v == rng_draw(rng_seed(*old(r)), rng_drawn(*old(r))),
{
    <rand::rngs::StdRng as rand::RngCore>::next_u64(r)
}

} // verus!
