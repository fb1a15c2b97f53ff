//! The seedable PRNG behind every sampler.
//!
//! The generator is rand's `StdRng` (ChaCha with 12 rounds): seedable for
//! reproducible tests, entropy-seeded for production use. Nothing is
//! assumed about the values it produces; every consumer in this crate
//! states what holds of its own output for any word the generator hands
//! back.

use vstd::prelude::*;

verus! {

#[verifier::external_type_specification]
#[verifier::external_body]
pub struct ExStdRng(rand::rngs::StdRng);

/// Relies on rand's `SeedableRng::from_entropy` for `StdRng`: a fresh
/// generator seeded from operating-system entropy.
#[verifier::external_body]
pub fn rng_from_entropy() -> (r: rand::rngs::StdRng) {
    <rand::rngs::StdRng as rand::SeedableRng>::from_entropy()
}

/// Relies on rand's `RngCore::next_u64` for `StdRng`: the generator's
/// next word. Nothing is promised of the value.
#[verifier::external_body]
pub fn rng_next_u64(rng: &mut rand::rngs::StdRng) -> (r: u64) {
    rand::RngCore::next_u64(rng)
}

} // verus!
