//! Additive-only Fan-Vercauteren (FV) lattice-based homomorphic encryption.
//!
//! The crate is a four-layer stack: modular scalar arithmetic over a
//! single-word modulus, the polynomial quotient ring R_q = Z_q[X]/(X^n + 1)
//! with a negacyclic number-theoretic transform, integer noise samplers
//! driven by a seedable PRNG, and the FV scheme itself: key generation,
//! public- and secret-key encryption, decryption, homomorphic addition,
//! plaintext injection and re-randomization.

pub mod arith;
pub mod fv;
pub mod ntt;
pub mod rng;
pub mod sampling;
pub mod poly;

use vstd::prelude::*;
pub use fv::{FVCiphertext, FVPlaintext, SecretKey, FV};
pub use ntt::RqPolyContext;
pub use poly::RqPoly;

verus! {

/// The default scheme: n = 2048 with the 54-bit NTT-friendly prime
/// modulus.
pub fn default() -> (r: FV)
    ensures
        r.wf(),
        r.n == 2048,
        r.q == 18014398492704769u64,
        r.stdev_pairs == 20,
        r.flood_pairs == 8,
        r.flood_scale == 0x80_0000_0000u64,
{
    FV::default_2048()
}

} // verus!
