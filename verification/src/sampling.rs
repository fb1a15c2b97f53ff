//! Random polynomials over R_q: uniform, ternary and centered-binomial
//! noise, all driven by a caller-supplied PRNG.
//!
//! Uniform scalars come from rejection sampling on the smallest all-ones
//! mask covering the bound — never from a modular reduction of a raw
//! word, which would bias small residues. Rejection is per coefficient
//! only; an all-zero polynomial is as acceptable as any other.
//!
//! The noise sampler realizes a discrete, Gaussian-like distribution as a
//! scaled centered binomial: the sum of `pairs` independent bit
//! differences, multiplied by `scale`, has standard deviation
//! `scale * sqrt(pairs / 2)` and support `[-pairs*scale, pairs*scale]`.
//! That hard support bound is exactly what the decryption-correctness
//! argument consumes.

use vstd::prelude::*;
use crate::ntt::RqPolyContext;
use crate::poly::{coeffs_reduced, RqPoly};
use crate::rng::rng_next_u64;

verus! {

/// The signed value a reduced coefficient stands for: itself in the lower
/// half of `[0, q)`, and `c - q` in the upper half.
pub open spec fn spec_centered(c: u64, q: u64) -> int {
    if 2 * (c as int) < q as int {
        c as int
    } else {
        c as int - q as int
    }
}

/// Every coefficient stands for a signed value of magnitude at most `b`.
pub open spec fn spec_noise_bounded(s: Seq<u64>, b: int, q: u64) -> bool {
    forall|i: int| 0 <= i < s.len() ==> -b <= spec_centered(#[trigger] s[i], q) <= b
}

/// Every coefficient is 0, 1 or q-1: the stored form of {-1, 0, 1}.
pub open spec fn spec_ternary(s: Seq<u64>, q: u64) -> bool {
    forall|i: int| 0 <= i < s.len() ==> s[i] == 0 || s[i] == 1 || s[i] == q - 1
}

/// A uniform draw from `[0, bound)` by rejection sampling on the smallest
/// all-ones bit mask that covers the bound. A masked word is accepted
/// only when it lands under the bound, so accepted draws are exactly
/// uniform; after 128 straight rejections (each rejection has probability
/// at most 1/2, so this is unreachable in practice) the draw falls back
/// to a plain reduction.
pub fn sample_below_from_rng(bound: u64, rng: &mut rand::rngs::StdRng) -> (r: u64)
    requires
        1 <= bound < 0x8000_0000_0000_0000u64,
    ensures
        r < bound,
{
    let mut mask: u64 = 1;
    while mask < bound
        invariant
            1 <= mask,
            bound < 0x8000_0000_0000_0000u64,
            mask < 0xFFFF_FFFF_FFFF_FFFEu64,
        decreases 2 * (bound as int) - (mask as int),
    {
        mask = mask * 2 + 1;
    }
    let mut tries: usize = 0;
    while tries < 128
        invariant
            tries <= 128,
            1 <= bound,
            mask < 0xFFFF_FFFF_FFFF_FFFEu64,
        decreases 128 - tries,
    {
        let w = rng_next_u64(rng) % (mask + 1);
        if w < bound {
            return w;
        }
        tries = tries + 1;
    }
    rng_next_u64(rng) % bound
}

/// A fresh polynomial with every coefficient drawn independently and
/// uniformly from `[0, q)`, in coefficient form.
pub fn sample_uniform_poly(context: &RqPolyContext, rng: &mut rand::rngs::StdRng) -> (r: RqPoly)
    requires
        context.wf(),
    ensures
        r.wf(context.n as nat, context.q),
        !r.is_ntt_form,
{
    let n = context.n;
    let q = context.q;
    let mut coeffs: Vec<u64> = Vec::new();
    for i in 0..n
        invariant
            1 <= q < 0x8000_0000_0000_0000u64,
            coeffs@.len() == i,
            coeffs_reduced(coeffs@, q),
    {
        let c = sample_below_from_rng(q, rng);
        coeffs.push(c);
    }
    RqPoly { coeffs, is_ntt_form: false }
}

/// A fresh ternary polynomial: each coefficient is -1, 0 or 1 with
/// probabilities (1/4, 1/2, 1/4), realized as the difference of two
/// independent random bits; -1 is stored as q-1. Coefficient form.
pub fn sample_ternary_poly_prng(context: &RqPolyContext, rng: &mut rand::rngs::StdRng) -> (r:
    RqPoly)
    requires
        context.wf(),
    ensures
        r.wf(context.n as nat, context.q),
        !r.is_ntt_form,
        spec_ternary(r.coeffs@, context.q),
        spec_noise_bounded(r.coeffs@, 1, context.q),
{
    let n = context.n;
    let q = context.q;
    let mut coeffs: Vec<u64> = Vec::new();
    for i in 0..n
        invariant
            2 <= q < 0x8000_0000_0000_0000u64,
            coeffs@.len() == i,
            coeffs_reduced(coeffs@, q),
            spec_ternary(coeffs@, q),
            spec_noise_bounded(coeffs@, 1, q),
    {
        let w = rng_next_u64(rng);
        let b1 = w % 2;
        let b2 = (w / 2) % 2;
        let c: u64 = if b1 == 1 && b2 == 0 {
            1
        } else if b1 == 0 && b2 == 1 {
            q - 1
        } else {
            0
        };
        coeffs.push(c);
    }
    RqPoly { coeffs, is_ntt_form: false }
}

/// The ternary sampler over a fresh entropy-seeded generator.
pub fn sample_ternary_poly(context: &RqPolyContext) -> (r: RqPoly)
    requires
        context.wf(),
    ensures
        r.wf(context.n as nat, context.q),
        !r.is_ntt_form,
        spec_ternary(r.coeffs@, context.q),
        spec_noise_bounded(r.coeffs@, 1, context.q),
{
    let mut rng = crate::rng::rng_from_entropy();
    sample_ternary_poly_prng(context, &mut rng)
}

/// A fresh small-noise polynomial: each coefficient is an independent
/// scaled centered-binomial draw, `scale * (sum of pairs bit
/// differences)`, stored reduced mod q. Coefficient form; the magnitude
/// of every (signed) coefficient is at most `pairs * scale`.
pub fn sample_noise_poly(
    context: &RqPolyContext,
    pairs: usize,
    scale: u64,
    rng: &mut rand::rngs::StdRng,
) -> (r: RqPoly)
    requires
        context.wf(),
        1 <= pairs <= 64,
        1 <= scale,
        2 * (pairs as int) * (scale as int) < context.q as int,
    ensures
        r.wf(context.n as nat, context.q),
        !r.is_ntt_form,
        spec_noise_bounded(r.coeffs@, (pairs as int) * (scale as int), context.q),
{
    let n = context.n;
    let q = context.q;
    let ghost b = (pairs as int) * (scale as int);
    proof {
        assert((pairs as int) * (scale as int) >= 1 && (pairs as int) * (scale as int) >= pairs
            && 2 * ((pairs as int) * (scale as int)) == 2 * (pairs as int) * (scale as int)) by (
        nonlinear_arith)
            requires
                pairs >= 1,
                scale >= 1,
        ;
    }
    let mut coeffs: Vec<u64> = Vec::new();
    for i in 0..n
        invariant
            2 <= q < 0x8000_0000_0000_0000u64,
            1 <= pairs <= 64,
            1 <= scale,
            b == (pairs as int) * (scale as int),
            pairs <= b,
            2 * b < q as int,
            coeffs@.len() == i,
            coeffs_reduced(coeffs@, q),
            spec_noise_bounded(coeffs@, b, q),
    {
        let mut pos: u64 = 0;
        let mut neg: u64 = 0;
        for p in 0..pairs
            invariant
                pairs <= 64,
                pos <= p,
                neg <= p,
            decreases pairs - p,
        {
            let w = rng_next_u64(rng);
            pos = pos + w % 2;
            neg = neg + (w / 2) % 2;
        }
        let d: u64 = if pos >= neg {
            pos - neg
        } else {
            neg - pos
        };
        proof {
            assert((d as int) * (scale as int) <= b && (d >= 1 ==> (d as int) * (scale as int)
                >= 1)) by (nonlinear_arith)
                requires
                    d <= pairs,
                    1 <= scale,
                    b == (pairs as int) * (scale as int),
            ;
        }
        let mag = d * scale;
        let c: u64 = if mag == 0 {
            0
        } else if pos >= neg {
            mag
        } else {
            q - mag
        };
        proof {
            assert(c < q);
            assert(-b <= spec_centered(c, q) <= b);
        }
        coeffs.push(c);
    }
    RqPoly { coeffs, is_ntt_form: false }
}

} // verus!
