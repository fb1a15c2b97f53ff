//! Modular scalar arithmetic over a single-word modulus `q`.
//!
//! Every operation takes reduced inputs (values in `[0, q)`) and returns a
//! reduced result whose value is pinned to big-integer arithmetic reduced
//! modulo `q`. Products and sums are formed in double-width arithmetic so
//! that no intermediate overflows.

use vstd::prelude::*;
use vstd::arithmetic::div_mod::{
    lemma_fundamental_div_mod_converse_mod, lemma_mod_bound, lemma_mul_mod_noop_general,
    lemma_small_mod,
};
use vstd::arithmetic::power::{
    lemma_pow0, lemma_pow1, lemma_pow_adds, lemma_pow_mod_noop, lemma_pow_multiplies,
    lemma_square_is_pow2, pow,
};

verus! {

/// `(a + b) mod q` over the mathematical integers.
pub open spec fn spec_add_mod(a: int, b: int, q: int) -> int {
    (a + b) % q
}

/// `(a - b) mod q` over the mathematical integers, always in `[0, q)`.
pub open spec fn spec_sub_mod(a: int, b: int, q: int) -> int {
    (a - b) % q
}

/// `(a * b) mod q` over the mathematical integers.
pub open spec fn spec_mul_mod(a: int, b: int, q: int) -> int {
    (a * b) % q
}

/// `a^e mod q` over the mathematical integers.
pub open spec fn spec_pow_mod(a: int, e: nat, q: int) -> int {
    pow(a, e) % q
}

/// A modulus small enough that `a + q` and `256 * a + q` fit in a
/// double word for any reduced `a`; every supported parameter set is far
/// below this bound.
pub open spec fn modulus_ok(q: u64) -> bool {
    2 <= q < 0x8000_0000_0000_0000u64
}

/// Computes `(a + b) mod q` by compare-and-subtract on the double-width sum.
pub fn add_mod(a: u64, b: u64, q: u64) -> (r: u64)
    requires
        modulus_ok(q),
        a < q,
        b < q,
    ensures
        r == spec_add_mod(a as int, b as int, q as int),
        r < q,
{
    let s: u64 = a + b;
    if s >= q {
        proof {
            lemma_fundamental_div_mod_converse_mod(a + b, q as int, 1int, a + b - q);
        }
        s - q
    } else {
        proof {
            lemma_small_mod((a + b) as nat, q as nat);
        }
        s
    }
}

/// Computes `(a - b) mod q` as `a + q - b` reduced once.
pub fn sub_mod(a: u64, b: u64, q: u64) -> (r: u64)
    requires
        modulus_ok(q),
        a < q,
        b < q,
    ensures
        r == spec_sub_mod(a as int, b as int, q as int),
        r < q,
{
    if a >= b {
        proof {
            lemma_small_mod((a - b) as nat, q as nat);
        }
        a - b
    } else {
        proof {
            lemma_fundamental_div_mod_converse_mod(a - b, q as int, -1int, a + q - b);
        }
        a + q - b
    }
}

/// Computes `(a * b) mod q` with the product formed in double-width
/// arithmetic, so the reduction is exact for any reduced operands.
pub fn mul_mod(a: u64, b: u64, q: u64) -> (r: u64)
    requires
        modulus_ok(q),
        a < q,
        b < q,
    ensures
        r == spec_mul_mod(a as int, b as int, q as int),
        r < q,
{
    proof {
        assert((a as int) * (b as int) < (q as int) * (q as int)) by (nonlinear_arith)
            requires
                a < q,
                b < q,
                q >= 2,
        ;
        assert((q as int) * (q as int) < u128::MAX) by (nonlinear_arith)
            requires
                q < 0x8000_0000_0000_0000u64,
        ;
    }
    let wide: u128 = (a as u128) * (b as u128);
    let red: u128 = wide % (q as u128);
    proof {
        lemma_mod_bound((a as int) * (b as int), q as int);
    }
    red as u64
}

/// Computes `a^e mod q` by right-to-left square-and-multiply.
pub fn pow_mod(a: u64, e: u64, q: u64) -> (r: u64)
    requires
        modulus_ok(q),
    ensures
        r == spec_pow_mod(a as int, e as nat, q as int),
        r < q,
{
    let mut result: u64 = 1;
    let mut base: u64 = a % q;
    let mut exp: u64 = e;
    proof {
        lemma_pow_mod_noop(a as int, e as nat, q as int);
        lemma_small_mod(1nat, q as nat);
        lemma_mod_bound(a as int, q as int);
        lemma_pow_mod_shrink(a as int, base as int, e as nat, q as int);
    }
    while exp > 0
        invariant
            modulus_ok(q),
            result < q,
            base < q,
            spec_mul_mod(result as int, pow(base as int, exp as nat), q as int) == spec_pow_mod(
                a as int,
                e as nat,
                q as int,
            ),
        decreases exp,
    {
        if exp % 2 == 1 {
            proof {
                lemma_step_odd(result as int, base as int, exp as nat, q as int);
            }
            result = mul_mod(result, base, q);
        }
        proof {
            lemma_step_square(result as int, base as int, (exp / 2) as nat, q as int);
        }
        base = mul_mod(base, base, q);
        exp = exp / 2;
    }
    proof {
        lemma_pow0(base as int);
        lemma_mod_bound(result as int, q as int);
        lemma_small_mod(result as nat, q as nat);
    }
    result
}

/// Replacing the base of a power by its reduction does not change the
/// residue of the power.
proof fn lemma_pow_mod_shrink(a: int, b: int, e: nat, q: int)
    requires
        q >= 2,
        b == a % q,
    ensures
        pow(b, e) % q == pow(a, e) % q,
{
    lemma_pow_mod_noop(a, e, q);
    lemma_pow_mod_noop(b, e, q);
    lemma_mod_bound(a, q);
}

/// One odd step of square-and-multiply: folding the current base into the
/// accumulator keeps the loop invariant, with the exponent dropped by one.
proof fn lemma_step_odd(result: int, base: int, exp: nat, q: int)
    requires
        q >= 2,
        0 <= result < q,
        0 <= base < q,
        exp % 2 == 1,
    ensures
        spec_mul_mod((result * base) % q, pow(base, (exp - 1) as nat), q) == spec_mul_mod(
            result,
            pow(base, exp),
            q,
        ),
        (exp - 1) as nat % 2 == 0,
        ((exp - 1) as nat) / 2 == exp / 2,
{
    let e1 = (exp - 1) as nat;
    lemma_pow1(base);
    lemma_pow_adds(base, 1nat, e1);
    assert(pow(base, exp) == base * pow(base, e1));
    assert(result * (base * pow(base, e1)) == (result * base) * pow(base, e1))
        by (nonlinear_arith);
    lemma_mul_mod_noop_general(result * base, pow(base, e1), q);
}

/// Squaring the (reduced) base and halving the exponent preserves the
/// residue carried by the loop invariant.
proof fn lemma_step_square(result: int, base: int, half: nat, q: int)
    requires
        q >= 2,
        0 <= base < q,
    ensures
        spec_mul_mod(result, pow((base * base) % q, half), q) == spec_mul_mod(
            result,
            pow(base, 2 * half),
            q,
        ),
{
    lemma_pow_multiplies(base, 2nat, half);
    lemma_square_is_pow2(base);
    assert(pow(base, 2 * half) == pow(base * base, half));
    lemma_pow_mod_noop(base * base, half, q);
    lemma_mul_mod_noop_general(result, pow(base * base, half), q);
    lemma_mul_mod_noop_general(result, pow((base * base) % q, half), q);
}

/// A scalar of the single-word backend: a non-negative value paired
/// implicitly with a modulus context held by the caller.
pub struct Scalar {
    pub rep: u64,
}

/// The strategy interface over scalar backends: modular arithmetic,
/// plain arithmetic, sampling and conversions. The scheme is written
/// against the single-word backend directly, but any backend satisfying
/// these contracts computes the same values.
pub trait ArithUtils: Sized {
    /// The integer a scalar stands for.
    spec fn value(&self) -> int;

    /// Every scalar of the backend stands for a single unsigned word.
    proof fn value_in_range(&self)
        ensures
            0 <= self.value() < 0x1_0000_0000_0000_0000,
    ;

    fn modulus(a: &Self, q: &Self) -> (r: Self)
        requires
            1 <= q.value() < 0x1_0000_0000_0000_0000,
            0 <= a.value() < 0x1_0000_0000_0000_0000,
        ensures
            r.value() == a.value() % q.value(),
    ;

    fn double(a: &Self) -> (r: Self)
        requires
            0 <= a.value() < 0x8000_0000_0000_0000,
        ensures
            r.value() == 2 * a.value(),
    ;

    fn sample_blw(bound: &Self) -> (r: Self)
        requires
            1 <= bound.value() < 0x8000_0000_0000_0000,
        ensures
            0 <= r.value() < bound.value(),
    ;

    fn sample_below_from_rng(bound: &Self, rng: &mut rand::rngs::StdRng) -> (r: Self)
        requires
            1 <= bound.value() < 0x8000_0000_0000_0000,
        ensures
            0 <= r.value() < bound.value(),
    ;

    fn one() -> (r: Self)
        ensures
            r.value() == 1,
    ;

    fn zero() -> (r: Self)
        ensures
            r.value() == 0,
    ;

    fn add_mod(a: &Self, b: &Self, q: &Self) -> (r: Self)
        requires
            2 <= q.value() < 0x8000_0000_0000_0000,
            0 <= a.value() < q.value(),
            0 <= b.value() < q.value(),
        ensures
            r.value() == spec_add_mod(a.value(), b.value(), q.value()),
    ;

    fn sub_mod(a: &Self, b: &Self, q: &Self) -> (r: Self)
        requires
            2 <= q.value() < 0x8000_0000_0000_0000,
            0 <= a.value() < q.value(),
            0 <= b.value() < q.value(),
        ensures
            r.value() == spec_sub_mod(a.value(), b.value(), q.value()),
    ;

    fn mul_mod(a: &Self, b: &Self, q: &Self) -> (r: Self)
        requires
            2 <= q.value() < 0x8000_0000_0000_0000,
            0 <= a.value() < q.value(),
            0 <= b.value() < q.value(),
        ensures
            r.value() == spec_mul_mod(a.value(), b.value(), q.value()),
    ;

    fn inv_mod(a: &Self, q: &Self) -> (r: Self)
        requires
            2 <= q.value() < 0x8000_0000_0000_0000,
            0 <= a.value() < 0x1_0000_0000_0000_0000,
        ensures
            r.value() == spec_pow_mod(a.value(), (q.value() - 2) as nat, q.value()),
    ;

    fn from_u32(a: u32, q: &Self) -> (r: Self)
        requires
            1 <= q.value() < 0x1_0000_0000_0000_0000,
        ensures
            r.value() == (a as int) % q.value(),
    ;

    fn pow_mod(a: &Self, b: &Self, c: &Self) -> (r: Self)
        requires
            2 <= c.value() < 0x8000_0000_0000_0000,
            0 <= a.value() < 0x1_0000_0000_0000_0000,
            0 <= b.value() < 0x1_0000_0000_0000_0000,
        ensures
            r.value() == spec_pow_mod(a.value(), b.value() as nat, c.value()),
    ;

    fn add(a: &Self, b: &Self) -> (r: Self)
        requires
            0 <= a.value(),
            0 <= b.value(),
            a.value() + b.value() < 0x1_0000_0000_0000_0000,
        ensures
            r.value() == a.value() + b.value(),
    ;

    fn sub(a: &Self, b: &Self) -> (r: Self)
        requires
            0 <= b.value() <= a.value(),
        ensures
            r.value() == a.value() - b.value(),
    ;

    fn div(a: &Self, b: &Self) -> (r: Self)
        requires
            0 <= a.value(),
            1 <= b.value(),
        ensures
            r.value() == a.value() / b.value(),
    ;

    fn mul(a: &Self, b: &Self) -> (r: Self)
        requires
            0 <= a.value(),
            0 <= b.value(),
            a.value() * b.value() < 0x1_0000_0000_0000_0000,
        ensures
            r.value() == a.value() * b.value(),
    ;

    fn from_u32_raw(a: u32) -> (r: Self)
        ensures
            r.value() == a,
    ;

    fn from_u64_raw(a: u64) -> (r: Self)
        ensures
            r.value() == a,
    ;

    fn to_u64(a: Self) -> (r: u64)
        ensures
            r == a.value(),
    ;
}

impl ArithUtils for Scalar {
    open spec fn value(&self) -> int {
        self.rep as int
    }

    proof fn value_in_range(&self) {
    }

    fn modulus(a: &Scalar, q: &Scalar) -> (r: Scalar) {
        Scalar { rep: a.rep % q.rep }
    }

    fn double(a: &Scalar) -> (r: Scalar) {
        Scalar { rep: 2 * a.rep }
    }

    fn sample_blw(bound: &Scalar) -> (r: Scalar) {
        let mut rng = crate::rng::rng_from_entropy();
        Scalar { rep: crate::sampling::sample_below_from_rng(bound.rep, &mut rng) }
    }

    fn sample_below_from_rng(bound: &Scalar, rng: &mut rand::rngs::StdRng) -> (r: Scalar) {
        Scalar { rep: crate::sampling::sample_below_from_rng(bound.rep, rng) }
    }

    fn one() -> (r: Scalar) {
        Scalar { rep: 1 }
    }

    fn zero() -> (r: Scalar) {
        Scalar { rep: 0 }
    }

    fn add_mod(a: &Scalar, b: &Scalar, q: &Scalar) -> (r: Scalar) {
        Scalar { rep: add_mod(a.rep, b.rep, q.rep) }
    }

    fn sub_mod(a: &Scalar, b: &Scalar, q: &Scalar) -> (r: Scalar) {
        Scalar { rep: sub_mod(a.rep, b.rep, q.rep) }
    }

    fn mul_mod(a: &Scalar, b: &Scalar, q: &Scalar) -> (r: Scalar) {
        Scalar { rep: mul_mod(a.rep, b.rep, q.rep) }
    }

    fn inv_mod(a: &Scalar, q: &Scalar) -> (r: Scalar) {
        Scalar { rep: inv_mod(a.rep, q.rep) }
    }

    fn from_u32(a: u32, q: &Scalar) -> (r: Scalar) {
        Scalar { rep: (a as u64) % q.rep }
    }

    fn pow_mod(a: &Scalar, b: &Scalar, c: &Scalar) -> (r: Scalar) {
        Scalar { rep: pow_mod(a.rep, b.rep, c.rep) }
    }

    fn add(a: &Scalar, b: &Scalar) -> (r: Scalar) {
        Scalar { rep: a.rep + b.rep }
    }

    fn sub(a: &Scalar, b: &Scalar) -> (r: Scalar) {
        Scalar { rep: a.rep - b.rep }
    }

    fn div(a: &Scalar, b: &Scalar) -> (r: Scalar) {
        Scalar { rep: a.rep / b.rep }
    }

    fn mul(a: &Scalar, b: &Scalar) -> (r: Scalar) {
        Scalar { rep: a.rep * b.rep }
    }

    fn from_u32_raw(a: u32) -> (r: Scalar) {
        Scalar { rep: a as u64 }
    }

    fn from_u64_raw(a: u64) -> (r: Scalar) {
        Scalar { rep: a }
    }

    fn to_u64(a: Scalar) -> (r: u64) {
        a.rep
    }
}

/// Computes the modular inverse of `a` as `a^(q-2) mod q`; by Fermat's
/// little theorem this is the inverse whenever `q` is prime and `a` is not
/// a multiple of it. Callers that cannot assume primality check the
/// product of the result with `a` before relying on it.
pub fn inv_mod(a: u64, q: u64) -> (r: u64)
    requires
        modulus_ok(q),
    ensures
        r == spec_pow_mod(a as int, (q - 2) as nat, q as int),
        r < q,
{
    pow_mod(a, q - 2, q)
}

} // verus!
