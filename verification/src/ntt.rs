//! The negacyclic number-theoretic transform over R_q.
//!
//! The forward transform is an in-place iterative Cooley-Tukey
//! decimation-in-time pass whose butterflies fold the psi-twists in, so no
//! separate pre-multiplication is needed; its output is in bit-reversed
//! order. The inverse is the matching Gentleman-Sande decimation-in-
//! frequency pass over the element-wise inverted twiddle table, followed
//! by a scaling of every coefficient by `n^{-1} mod q`. Each inverse stage
//! undoes one forward stage up to a factor of two, which the final scaling
//! divides back out; that is the shape the round-trip proof follows.
//!
//! The ring context checks every fact the proofs rely on at construction
//! time: that each twiddle times its stored inverse is 1 mod q, and that
//! `n * n_inv == 1 mod q`. If any check fails (for instance because the
//! modulus is not a prime congruent to 1 mod 2n), the context simply
//! reports the transform as unavailable and the ring falls back to the
//! schoolbook product.

use vstd::prelude::*;
use vstd::arithmetic::div_mod::{
    lemma_add_mod_noop, lemma_add_mod_noop_right, lemma_fundamental_div_mod,
    lemma_fundamental_div_mod_converse, lemma_fundamental_div_mod_converse_mod, lemma_mod_bound,
    lemma_mul_mod_noop_general, lemma_mul_mod_noop_left, lemma_mul_mod_noop_right,
    lemma_small_mod, lemma_sub_mod_noop, lemma_sub_mod_noop_right,
};
use vstd::arithmetic::power2::{lemma2_to64, lemma_pow2_adds, lemma_pow2_strictly_increases, pow2};
use crate::arith::{
    add_mod, inv_mod, modulus_ok, mul_mod, pow_mod, spec_add_mod, spec_mul_mod, spec_sub_mod,
    sub_mod,
};
use crate::poly::{coeffs_reduced, spec_poly_add, spec_poly_pointwise, spec_poly_scale, RqPoly};

verus! {

/// `n` is a power of two.
pub open spec fn spec_is_pow2(n: nat) -> bool
    decreases n,
{
    if n == 0 {
        false
    } else if n == 1 {
        true
    } else {
        n % 2 == 0 && spec_is_pow2(n / 2)
    }
}

/// One forward (Cooley-Tukey) stage with `m` blocks of `2t` entries.
/// Entry `k` sits in block `i = k / 2t`; the butterfly over the pair
/// `(j, j + t)` with twiddle `s = tbl[m + i]` maps the lower half to
/// `a[j] + s*a[j+t]` and the upper half to `a[j] - s*a[j+t]`, mod q.
pub open spec fn spec_fstage(a: Seq<u64>, tbl: Seq<u64>, m: int, t: int, q: u64) -> Seq<u64> {
    Seq::new(
        a.len(),
        |k: int|
            {
                let i = k / (2 * t);
                let r = k % (2 * t);
                let s = tbl[m + i] as int;
                if r < t {
                    spec_add_mod(a[k] as int, spec_mul_mod(s, a[k + t] as int, q as int), q as int)
                        as u64
                } else {
                    spec_sub_mod(a[k - t] as int, spec_mul_mod(s, a[k] as int, q as int), q as int)
                        as u64
                }
            },
    )
}

/// One inverse (Gentleman-Sande) stage with `h` blocks of `2t` entries.
/// Over the same pairing as the forward stage with `m = h`, the butterfly
/// maps the lower half to `a[j] + a[j+t]` and the upper half to
/// `s * (a[j] - a[j+t])`, with `s` the stored twiddle inverse.
pub open spec fn spec_istage(a: Seq<u64>, itbl: Seq<u64>, h: int, t: int, q: u64) -> Seq<u64> {
    Seq::new(
        a.len(),
        |k: int|
            {
                let i = k / (2 * t);
                let r = k % (2 * t);
                let s = itbl[h + i] as int;
                if r < t {
                    spec_add_mod(a[k] as int, a[k + t] as int, q as int) as u64
                } else {
                    spec_mul_mod(
                        s,
                        spec_sub_mod(a[k - t] as int, a[k] as int, q as int),
                        q as int,
                    ) as u64
                }
            },
    )
}

/// The forward stages from block count `m` up: stage `m` has half-block
/// width `t = n / 2m`, and the block count doubles until it reaches `n`.
pub open spec fn spec_fwd_rec(a: Seq<u64>, tbl: Seq<u64>, m: int, n: int, q: u64) -> Seq<u64>
    decreases n - m,
{
    if m < 1 || 2 * m > n {
        a
    } else {
        spec_fwd_rec(spec_fstage(a, tbl, m, n / (2 * m), q), tbl, 2 * m, n, q)
    }
}

/// The inverse stages from block count `h` down to 1, halving each time;
/// stage `h` has half-block width `t = n / 2h`.
pub open spec fn spec_inv_rec(a: Seq<u64>, itbl: Seq<u64>, h: int, n: int, q: u64) -> Seq<u64>
    decreases h,
{
    if h < 1 {
        a
    } else {
        spec_inv_rec(spec_istage(a, itbl, h, n / (2 * h), q), itbl, h / 2, n, q)
    }
}

/// The full forward transform: all stages, starting from one block.
pub open spec fn spec_fwd(a: Seq<u64>, tbl: Seq<u64>, q: u64) -> Seq<u64> {
    spec_fwd_rec(a, tbl, 1, a.len() as int, q)
}

/// The full inverse transform: all stages from `n/2` blocks down, then
/// every coefficient scaled by `n^{-1} mod q`.
pub open spec fn spec_inv(a: Seq<u64>, itbl: Seq<u64>, n_inv: u64, q: u64) -> Seq<u64> {
    spec_poly_scale(spec_inv_rec(a, itbl, a.len() as int / 2, a.len() as int, q), n_inv, q)
}

/// The immutable ring context: dimensions, twiddle tables and the facts
/// the transforms rely on, all established by runtime checks at
/// construction.
pub struct RqPolyContext {
    pub n: usize,
    pub q: u64,
    pub is_ntt_enabled: bool,
    pub psi_table: Vec<u64>,
    pub psi_inv_table: Vec<u64>,
    pub n_inv: u64,
}

impl RqPolyContext {
    /// Well-formedness: sane dimensions always; when the transform is
    /// enabled, the tables pair up into modular inverses and `n_inv`
    /// inverts `n`.
    pub open spec fn wf(&self) -> bool {
        &&& modulus_ok(self.q)
        &&& 1 <= self.n <= 0x0010_0000
        &&& (self.is_ntt_enabled ==> {
            &&& spec_is_pow2(self.n as nat)
            &&& (self.n as u64) < self.q
            &&& self.psi_table@.len() == self.n
            &&& self.psi_inv_table@.len() == self.n
            &&& coeffs_reduced(self.psi_table@, self.q)
            &&& coeffs_reduced(self.psi_inv_table@, self.q)
            &&& (forall|i: int|
                0 <= i < self.n ==> spec_mul_mod(
                    self.psi_table@[i] as int,
                    self.psi_inv_table@[i] as int,
                    self.q as int,
                ) == 1)
            &&& self.n_inv < self.q
            &&& spec_mul_mod(self.n as int, self.n_inv as int, self.q as int) == 1
        })
    }
}

/// The serial number of the butterfly pair that entry `k` belongs to in a
/// stage of half-block width `t`: block index times `t` plus the offset
/// within the half-block.
pub open spec fn spec_pair_of(k: int, t: int) -> int {
    (k / (2 * t)) * t + (k % (2 * t)) % t
}

/// The pair with serial number `p = i*t + r` consists of exactly the two
/// entries `j = 2it + r` and `j + t`; both have serial `p`, and no other
/// entry does.
proof fn lemma_pair_indices(i: int, r: int, t: int)
    requires
        t >= 1,
        i >= 0,
        0 <= r < t,
    ensures
        spec_pair_of(i * (2 * t) + r, t) == i * t + r,
        spec_pair_of(i * (2 * t) + t + r, t) == i * t + r,
        (i * (2 * t) + r) / (2 * t) == i,
        (i * (2 * t) + r) % (2 * t) == r,
        (i * (2 * t) + t + r) / (2 * t) == i,
        (i * (2 * t) + t + r) % (2 * t) == t + r,
{
    lemma_fundamental_div_mod_converse(i * (2 * t) + r, 2 * t, i, r);
    lemma_fundamental_div_mod_converse(i * (2 * t) + t + r, 2 * t, i, t + r);
    lemma_fundamental_div_mod_converse_mod(r, t, 0, r);
    lemma_fundamental_div_mod_converse_mod(t + r, t, 1, r);
}

/// Conversely, an entry whose pair serial is `i*t + r` is one of those
/// two entries.
proof fn lemma_pair_unique(k: int, i: int, r: int, t: int)
    requires
        t >= 1,
        k >= 0,
        i >= 0,
        0 <= r < t,
        spec_pair_of(k, t) == i * t + r,
    ensures
        k == i * (2 * t) + r || k == i * (2 * t) + t + r,
{
    let ki = k / (2 * t);
    let kr = k % (2 * t);
    lemma_fundamental_div_mod(k, 2 * t);
    lemma_mod_bound(k, 2 * t);
    assert(ki >= 0) by (nonlinear_arith)
        requires
            k >= 0,
            t >= 1,
            ki == k / (2 * t),
    ;
    if kr < t {
        lemma_fundamental_div_mod_converse_mod(kr, t, 0, kr);
        lemma_fundamental_div_mod_converse(ki * t + kr, t, ki, kr);
        lemma_fundamental_div_mod_converse(i * t + r, t, i, r);
        assert(ki == i && kr == r);
    } else {
        lemma_fundamental_div_mod_converse_mod(kr, t, 1, kr - t);
        lemma_fundamental_div_mod_converse(ki * t + (kr - t), t, ki, kr - t);
        lemma_fundamental_div_mod_converse(i * t + r, t, i, r);
        assert(ki == i && kr - t == r);
    }
}

/// One in-place forward stage over `m` blocks of width `2t`.
#[verifier::loop_isolation(false)]
fn forward_stage(c: &mut Vec<u64>, tbl: &Vec<u64>, m: usize, t: usize, n: usize, q: u64)
    requires
        modulus_ok(q),
        old(c)@.len() == n,
        coeffs_reduced(old(c)@, q),
        tbl@.len() == n,
        coeffs_reduced(tbl@, q),
        1 <= m,
        1 <= t,
        n == 2 * m * t,
        n <= 0x0010_0000,
    ensures
        final(c)@ == spec_fstage(old(c)@, tbl@, m as int, t as int, q),
        coeffs_reduced(final(c)@, q),
{
    let ghost a0 = old(c)@;
    let ghost goal = spec_fstage(old(c)@, tbl@, m as int, t as int, q);
    proof {
        assert((m as int) * (t as int) == n as int / 2) by (nonlinear_arith)
            requires
                n as int == 2 * (m as int) * (t as int),
        ;
    }
    let half = n / 2;
    for p in 0..half
        invariant
            c@.len() == n,
            forall|k: int| 0 <= k < n && spec_pair_of(k, t as int) < p ==> c@[k] == goal[k],
            forall|k: int| 0 <= k < n && spec_pair_of(k, t as int) >= p ==> c@[k] == a0[k],
            coeffs_reduced(c@, q),
    {
        let i = p / t;
        let r = p % t;
        proof {
            lemma_fundamental_div_mod(p as int, t as int);
            lemma_mod_bound(p as int, t as int);
            assert((i as int) * (t as int) + (r as int) == p as int) by (nonlinear_arith)
                requires
                    (t as int) * (i as int) + (r as int) == p as int,
            ;
            assert(i < m) by (nonlinear_arith)
                requires
                    (i as int) * (t as int) + (r as int) == p as int,
                    0 <= r < t,
                    (p as int) < (m as int) * (t as int),
                    t >= 1,
                    i >= 0,
            ;
            assert(2 * (i as int) <= n as int && 2 * (i as int) * (t as int) + (r as int) + (
            t as int) < n as int && 2 * (i as int) * (t as int) == (i as int) * (2 * (t as int))
                && (m as int) + (i as int) < n as int) by (nonlinear_arith)
                requires
                    i < m,
                    0 <= r < t,
                    1 <= t,
                    n as int == 2 * (m as int) * (t as int),
            ;
            lemma_pair_indices(i as int, r as int, t as int);
        }
        let j = 2 * i * t + r;
        let s = tbl[m + i];
        let u = c[j];
        let v = mul_mod(s, c[j + t], q);
        let lo = add_mod(u, v, q);
        let hi = sub_mod(u, v, q);
        c.set(j, lo);
        c.set(j + t, hi);
        proof {
            assert forall|k: int|
                0 <= k < n && spec_pair_of(k, t as int) < p + 1 implies c@[k] == goal[k] by {
                if spec_pair_of(k, t as int) == p {
                    lemma_pair_unique(k, i as int, r as int, t as int);
                }
            }
            assert forall|k: int|
                0 <= k < n && spec_pair_of(k, t as int) >= p + 1 implies c@[k] == a0[k] by {
                if k == j || k == j + t {
                    assert(spec_pair_of(k, t as int) == p);
                }
            }
        }
    }
    proof {
        assert forall|k: int| 0 <= k < n implies c@[k] == goal[k] by {
            let ki = k / (2 * (t as int));
            let kr = k % (2 * (t as int));
            lemma_fundamental_div_mod(k, 2 * (t as int));
            lemma_mod_bound(k, 2 * (t as int));
            assert(ki >= 0) by (nonlinear_arith)
                requires
                    k >= 0,
                    t >= 1,
                    ki == k / (2 * (t as int)),
            ;
            if kr < t {
                lemma_pair_indices(ki, kr, t as int);
                assert((ki * (t as int) + kr) < half) by (nonlinear_arith)
                    requires
                        0 <= kr < t,
                        ki * (2 * (t as int)) + kr == k,
                        k < n,
                        n == 2 * (m as int) * (t as int),
                        t >= 1,
                        ki >= 0,
                        half == (m as int) * (t as int),
                ;
            } else {
                lemma_pair_indices(ki, kr - t, t as int);
                assert((ki * (t as int) + (kr - t)) < half) by (nonlinear_arith)
                    requires
                        (t as int) <= kr < 2 * (t as int),
                        ki * (2 * (t as int)) + kr == k,
                        k < n,
                        n == 2 * (m as int) * (t as int),
                        t >= 1,
                        ki >= 0,
                        half == (m as int) * (t as int),
                ;
            }
        }
        assert(c@ =~= goal);
    }
}

/// One in-place inverse stage over `h` blocks of width `2t`.
#[verifier::loop_isolation(false)]
fn inverse_stage(c: &mut Vec<u64>, itbl: &Vec<u64>, h: usize, t: usize, n: usize, q: u64)
    requires
        modulus_ok(q),
        old(c)@.len() == n,
        coeffs_reduced(old(c)@, q),
        itbl@.len() == n,
        coeffs_reduced(itbl@, q),
        1 <= h,
        1 <= t,
        n == 2 * h * t,
        n <= 0x0010_0000,
    ensures
        final(c)@ == spec_istage(old(c)@, itbl@, h as int, t as int, q),
        coeffs_reduced(final(c)@, q),
{
    let ghost a0 = old(c)@;
    let ghost goal = spec_istage(old(c)@, itbl@, h as int, t as int, q);
    proof {
        assert((h as int) * (t as int) == n as int / 2) by (nonlinear_arith)
            requires
                n as int == 2 * (h as int) * (t as int),
        ;
    }
    let half = n / 2;
    for p in 0..half
        invariant
            c@.len() == n,
            forall|k: int| 0 <= k < n && spec_pair_of(k, t as int) < p ==> c@[k] == goal[k],
            forall|k: int| 0 <= k < n && spec_pair_of(k, t as int) >= p ==> c@[k] == a0[k],
            coeffs_reduced(c@, q),
    {
        let i = p / t;
        let r = p % t;
        proof {
            lemma_fundamental_div_mod(p as int, t as int);
            lemma_mod_bound(p as int, t as int);
            assert((i as int) * (t as int) + (r as int) == p as int) by (nonlinear_arith)
                requires
                    (t as int) * (i as int) + (r as int) == p as int,
            ;
            assert(i < h) by (nonlinear_arith)
                requires
                    (i as int) * (t as int) + (r as int) == p as int,
                    0 <= r < t,
                    (p as int) < (h as int) * (t as int),
                    t >= 1,
                    i >= 0,
            ;
            assert(2 * (i as int) <= n as int && 2 * (i as int) * (t as int) + (r as int) + (
            t as int) < n as int && 2 * (i as int) * (t as int) == (i as int) * (2 * (t as int))
                && (h as int) + (i as int) < n as int) by (nonlinear_arith)
                requires
                    i < h,
                    0 <= r < t,
                    1 <= t,
                    n as int == 2 * (h as int) * (t as int),
            ;
            lemma_pair_indices(i as int, r as int, t as int);
        }
        let j = 2 * i * t + r;
        let s = itbl[h + i];
        let u = c[j];
        let v = c[j + t];
        let lo = add_mod(u, v, q);
        let hi = mul_mod(s, sub_mod(u, v, q), q);
        c.set(j, lo);
        c.set(j + t, hi);
        proof {
            assert forall|k: int|
                0 <= k < n && spec_pair_of(k, t as int) < p + 1 implies c@[k] == goal[k] by {
                if spec_pair_of(k, t as int) == p {
                    lemma_pair_unique(k, i as int, r as int, t as int);
                }
            }
            assert forall|k: int|
                0 <= k < n && spec_pair_of(k, t as int) >= p + 1 implies c@[k] == a0[k] by {
                if k == j || k == j + t {
                    assert(spec_pair_of(k, t as int) == p);
                }
            }
        }
    }
    proof {
        assert forall|k: int| 0 <= k < n implies c@[k] == goal[k] by {
            let ki = k / (2 * (t as int));
            let kr = k % (2 * (t as int));
            lemma_fundamental_div_mod(k, 2 * (t as int));
            lemma_mod_bound(k, 2 * (t as int));
            assert(ki >= 0) by (nonlinear_arith)
                requires
                    k >= 0,
                    t >= 1,
                    ki == k / (2 * (t as int)),
            ;
            if kr < t {
                lemma_pair_indices(ki, kr, t as int);
                assert((ki * (t as int) + kr) < half) by (nonlinear_arith)
                    requires
                        0 <= kr < t,
                        ki * (2 * (t as int)) + kr == k,
                        k < n,
                        n == 2 * (h as int) * (t as int),
                        t >= 1,
                        ki >= 0,
                        half == (h as int) * (t as int),
                ;
            } else {
                lemma_pair_indices(ki, kr - t, t as int);
                assert((ki * (t as int) + (kr - t)) < half) by (nonlinear_arith)
                    requires
                        (t as int) <= kr < 2 * (t as int),
                        ki * (2 * (t as int)) + kr == k,
                        k < n,
                        n == 2 * (h as int) * (t as int),
                        t >= 1,
                        ki >= 0,
                        half == (h as int) * (t as int),
                ;
            }
        }
        assert(c@ =~= goal);
    }
}

/// Every coefficient doubled mod q.
pub open spec fn spec_poly_double(a: Seq<u64>, q: u64) -> Seq<u64> {
    Seq::new(a.len(), |k: int| ((2 * (a[k] as int)) % (q as int)) as u64)
}

/// `a` doubled `c` times over, coefficient-wise mod q.
pub open spec fn spec_double_iter(a: Seq<u64>, c: nat, q: u64) -> Seq<u64>
    decreases c,
{
    if c == 0 {
        a
    } else {
        spec_poly_double(spec_double_iter(a, (c - 1) as nat, q), q)
    }
}

/// How many stages the forward recursion applies from block count `m`.
pub open spec fn spec_stage_count(m: int, n: int) -> nat
    decreases n - m,
{
    if m < 1 || 2 * m > n {
        0
    } else {
        1 + spec_stage_count(2 * m, n)
    }
}

/// The entry `k` of a stage over blocks of width `2t` decomposes as
/// `k = i*2t + kr`: facts about the block index and offset that every
/// element-wise stage argument needs.
proof fn lemma_block_of(k: int, m: int, t: int, n: int)
    requires
        0 <= k < n,
        1 <= m,
        1 <= t,
        n == 2 * m * t,
    ensures
        0 <= k / (2 * t) < m,
        k == (k / (2 * t)) * (2 * t) + k % (2 * t),
        0 <= k % (2 * t) < 2 * t,
        m + k / (2 * t) < n,
        k % (2 * t) < t ==> k + t < n && (k + t) / (2 * t) == k / (2 * t) && (k + t) % (2 * t)
            == k % (2 * t) + t,
        k % (2 * t) >= t ==> k - t >= 0 && (k - t) / (2 * t) == k / (2 * t) && (k - t) % (2 * t)
            == k % (2 * t) - t,
{
    let ki = k / (2 * t);
    let kr = k % (2 * t);
    lemma_fundamental_div_mod(k, 2 * t);
    lemma_mod_bound(k, 2 * t);
    assert(ki >= 0 && ki < m && m + ki < n && ki * (2 * t) >= 0) by (nonlinear_arith)
        requires
            k >= 0,
            1 <= m,
            t >= 1,
            ki == k / (2 * t),
            ki * (2 * t) + kr == k,
            0 <= kr < 2 * t,
            k < n,
            n == 2 * m * t,
    ;
    if kr < t {
        lemma_pair_indices(ki, kr, t);
        assert(k + t < n) by (nonlinear_arith)
            requires
                ki < m,
                0 <= kr < t,
                1 <= t,
                n == 2 * m * t,
                k == ki * (2 * t) + kr,
                ki >= 0,
        ;
    } else {
        lemma_pair_indices(ki, kr - t, t);
    }
}

/// The inverse stage at the same block count undoes the forward stage up
/// to a factor of two in every coefficient: the butterfly sums
/// reconstruct `2*a[j]`, and the twiddle inverse cancels the twiddle on
/// the odd half.
proof fn lemma_istage_undoes_fstage(
    a: Seq<u64>,
    tbl: Seq<u64>,
    itbl: Seq<u64>,
    m: int,
    t: int,
    n: int,
    q: u64,
)
    requires
        modulus_ok(q),
        a.len() == n,
        coeffs_reduced(a, q),
        tbl.len() == n,
        itbl.len() == n,
        coeffs_reduced(tbl, q),
        coeffs_reduced(itbl, q),
        forall|i: int|
            0 <= i < n ==> spec_mul_mod(tbl[i] as int, itbl[i] as int, q as int) == 1,
        1 <= m,
        1 <= t,
        n == 2 * m * t,
    ensures
        spec_istage(spec_fstage(a, tbl, m, t, q), itbl, m, t, q) == spec_poly_double(a, q),
{
    let f = spec_fstage(a, tbl, m, t, q);
    let g = spec_istage(f, itbl, m, t, q);
    let d = spec_poly_double(a, q);
    let qi = q as int;
    assert forall|k: int| 0 <= k < n implies g[k] == d[k] by {
        lemma_block_of(k, m, t, n);
        let ki = k / (2 * t);
        let kr = k % (2 * t);
        let s = tbl[m + ki] as int;
        let si = itbl[m + ki] as int;
        if kr < t {
            let x = a[k] as int;
            let y = a[k + t] as int;
            let mm = spec_mul_mod(s, y, qi);
            lemma_block_of(k + t, m, t, n);
            assert(f[k] == spec_add_mod(x, mm, qi) as u64);
            assert(f[k + t] == spec_sub_mod(x, mm, qi) as u64);
            assert(g[k] == spec_add_mod((x + mm) % qi, (x - mm) % qi, qi) as u64);
            lemma_add_mod_noop(x + mm, x - mm, qi);
            lemma_mod_bound(x + mm, qi);
            lemma_mod_bound(x - mm, qi);
            assert(((x + mm) % qi + (x - mm) % qi) % qi == (2 * x) % qi);
        } else {
            let x = a[k - t] as int;
            let y = a[k] as int;
            let mm = spec_mul_mod(s, y, qi);
            lemma_block_of(k - t, m, t, n);
            assert(f[k - t] == spec_add_mod(x, mm, qi) as u64);
            assert(f[k] == spec_sub_mod(x, mm, qi) as u64);
            assert(g[k] == spec_mul_mod(
                si,
                spec_sub_mod((x + mm) % qi, (x - mm) % qi, qi),
                qi,
            ) as u64);
            lemma_sub_mod_noop(x + mm, x - mm, qi);
            lemma_mod_bound(x + mm, qi);
            lemma_mod_bound(x - mm, qi);
            assert(((x + mm) % qi - (x - mm) % qi) % qi == (2 * mm) % qi);
            lemma_mod_bound(s * y, qi);
            // si * ((2*mm) mod q) == si * (2*mm) mod q, and mm == s*y mod q
            lemma_mul_mod_noop_right(si, 2 * mm, qi);
            assert((si * ((2 * mm) % qi)) % qi == (si * (2 * mm)) % qi);
            // 2*mm == 2*((s*y) mod q), and mod-noop for the inner factor
            lemma_add_mod_noop((s * y) % qi, (s * y) % qi, qi);
            lemma_add_mod_noop(s * y, s * y, qi);
            assert((2 * mm) % qi == (2 * (s * y)) % qi);
            lemma_mul_mod_noop_right(si, 2 * (s * y), qi);
            assert((si * (2 * mm)) % qi == (si * ((2 * mm) % qi)) % qi);
            assert((si * ((2 * (s * y)) % qi)) % qi == (si * (2 * (s * y))) % qi);
            assert((si * (2 * mm)) % qi == (si * (2 * (s * y))) % qi) by {
                assert((2 * mm) % qi == (2 * (s * y)) % qi);
                lemma_mul_mod_noop_right(si, 2 * mm, qi);
                lemma_mul_mod_noop_right(si, 2 * (s * y), qi);
            }
            assert(si * (2 * (s * y)) == (si * s) * (2 * y)) by (nonlinear_arith);
            lemma_mul_mod_noop_left(si * s, 2 * y, qi);
            assert(((si * s) * (2 * y)) % qi == (((si * s) % qi) * (2 * y)) % qi);
            assert((si * s) % qi == 1) by {
                assert(si * s == s * si) by (nonlinear_arith);
                assert(spec_mul_mod(tbl[m + ki] as int, itbl[m + ki] as int, qi) == 1);
            }
            assert((1 * (2 * y)) % qi == (2 * y) % qi);
            assert(g[k] == ((2 * y) % qi) as u64);
        }
    }
    assert(g =~= d);
}

/// An inverse stage commutes with coefficient-wise doubling.
proof fn lemma_istage_double(a: Seq<u64>, itbl: Seq<u64>, h: int, t: int, n: int, q: u64)
    requires
        modulus_ok(q),
        a.len() == n,
        1 <= h,
        1 <= t,
        n == 2 * h * t,
    ensures
        spec_istage(spec_poly_double(a, q), itbl, h, t, q) == spec_poly_double(
            spec_istage(a, itbl, h, t, q),
            q,
        ),
{
    let qi = q as int;
    let lhs = spec_istage(spec_poly_double(a, q), itbl, h, t, q);
    let rhs = spec_poly_double(spec_istage(a, itbl, h, t, q), q);
    assert forall|k: int| 0 <= k < n implies lhs[k] == rhs[k] by {
        lemma_block_of(k, h, t, n);
        let kr = k % (2 * t);
        let s = itbl[h + k / (2 * t)] as int;
        if kr < t {
            lemma_block_of(k + t, h, t, n);
            let x = a[k] as int;
            let y = a[k + t] as int;
            lemma_add_mod_noop((2 * x) % qi, (2 * y) % qi, qi);
            lemma_add_mod_noop(2 * x, 2 * y, qi);
            lemma_add_mod_noop(x, y, qi);
            lemma_mod_bound(x + y, qi);
            let u = (x + y) % qi;
            lemma_add_mod_noop(u, u, qi);
            lemma_add_mod_noop(x + y, x + y, qi);
            assert(lhs[k] == rhs[k]);
        } else {
            lemma_block_of(k - t, h, t, n);
            let x = a[k - t] as int;
            let y = a[k] as int;
            lemma_sub_mod_noop((2 * x) % qi, (2 * y) % qi, qi);
            lemma_sub_mod_noop(2 * x, 2 * y, qi);
            lemma_mod_bound(x - y, qi);
            let u = (x - y) % qi;
            lemma_sub_mod_noop(x, y, qi);
            lemma_add_mod_noop(u, u, qi);
            lemma_add_mod_noop(x - y, x - y, qi);
            assert((2 * x - 2 * y) % qi == (2 * u) % qi);
            lemma_mul_mod_noop_right(s, 2 * u, qi);
            assert(s * (2 * u) == 2 * (s * u)) by (nonlinear_arith);
            lemma_mul_mod_noop_right(2, s * u, qi);
            lemma_mod_bound(s * u, qi);
            lemma_mul_mod_noop_right(s, (2 * u) % qi, qi);
            assert(lhs[k] == ((s * ((2 * u) % qi)) % qi) as u64);
            assert(rhs[k] == ((2 * ((s * u) % qi)) % qi) as u64);
            assert((s * ((2 * u) % qi)) % qi == (s * (2 * u)) % qi);
            assert((2 * ((s * u) % qi)) % qi == (2 * (s * u)) % qi);
            assert(lhs[k] == rhs[k]);
        }
    }
    assert(lhs =~= rhs);
}

/// An inverse stage commutes with iterated doubling.
proof fn lemma_istage_double_iter(
    a: Seq<u64>,
    itbl: Seq<u64>,
    h: int,
    t: int,
    n: int,
    c: nat,
    q: u64,
)
    requires
        modulus_ok(q),
        a.len() == n,
        1 <= h,
        1 <= t,
        n == 2 * h * t,
    ensures
        spec_istage(spec_double_iter(a, c, q), itbl, h, t, q) == spec_double_iter(
            spec_istage(a, itbl, h, t, q),
            c,
            q,
        ),
    decreases c,
{
    if c == 0 {
    } else {
        lemma_istage_double_iter(a, itbl, h, t, n, (c - 1) as nat, q);
        lemma_double_iter_len(a, (c - 1) as nat, q);
        lemma_istage_double(spec_double_iter(a, (c - 1) as nat, q), itbl, h, t, n, q);
    }
}

/// Iterated doubling preserves length.
proof fn lemma_double_iter_len(a: Seq<u64>, c: nat, q: u64)
    ensures
        spec_double_iter(a, c, q).len() == a.len(),
    decreases c,
{
    if c == 0 {
    } else {
        lemma_double_iter_len(a, (c - 1) as nat, q);
    }
}

/// The inverse recursion commutes with iterated doubling.
proof fn lemma_inv_rec_double_iter(a: Seq<u64>, itbl: Seq<u64>, h: int, n: int, c: nat, q: u64)
    requires
        modulus_ok(q),
        a.len() == n,
        h >= 1 ==> spec_is_pow2(h as nat) && spec_is_pow2(n as nat) && 2 * h <= n,
    ensures
        spec_inv_rec(spec_double_iter(a, c, q), itbl, h, n, q) == spec_double_iter(
            spec_inv_rec(a, itbl, h, n, q),
            c,
            q,
        ),
    decreases h,
{
    if h < 1 {
    } else {
        let t = n / (2 * h);
        lemma_pow2_divides(h as nat, n as nat);
        assert(n == 2 * h * t && 1 <= t) by (nonlinear_arith)
            requires
                1 <= h,
                2 * h <= n,
                t == n / (2 * h),
                n % (2 * h) == 0,
        ;
        lemma_istage_double_iter(a, itbl, h, t, n, c, q);
        let a1 = spec_istage(a, itbl, h, t, q);
        assert(a1.len() == n);
        if h >= 2 {
            lemma_pow2_half(h as nat);
            assert(2 * (h / 2) <= n);
        }
        lemma_inv_rec_double_iter(a1, itbl, h / 2, n, c, q);
    }
}

/// Two powers of two within a factor of two of each other are equal.
proof fn lemma_pow2_between(m: nat, n: nat)
    requires
        spec_is_pow2(m),
        spec_is_pow2(n),
        m <= n < 2 * m,
    ensures
        m == n,
    decreases m,
{
    if m >= 2 {
        lemma_pow2_half(m);
        lemma_pow2_half(n);
        lemma_pow2_between(m / 2, n / 2);
    }
}

/// A smaller power of two divides a larger one.
proof fn lemma_pow2_divides(m: nat, n: nat)
    requires
        spec_is_pow2(m),
        spec_is_pow2(n),
        2 * m <= n,
    ensures
        n % (2 * m) == 0,
    decreases m,
{
    lemma_pow2_half(n);
    if m == 1 {
        assert(n % 2 == 0);
        lemma_fundamental_div_mod(n as int, 2);
        lemma_fundamental_div_mod_converse_mod(n as int, 2, n as int / 2, 0);
    } else {
        lemma_pow2_half(m);
        lemma_pow2_divides(m / 2, n / 2);
        let hm = m as int / 2;
        let hn = n as int / 2;
        let c = hn / (2 * hm);
        lemma_fundamental_div_mod(hn, 2 * hm);
        assert(hn == (2 * hm) * c + hn % (2 * hm));
        assert(hn == (2 * hm) * c);
        lemma_fundamental_div_mod(n as int, 2);
        assert(n as int == 2 * hn + n as int % 2);
        assert(n as int == 2 * ((2 * hm) * c));
        assert(n as int == (2 * (m as int)) * c) by (nonlinear_arith)
            requires
                n as int == 2 * ((2 * hm) * c),
                m as int == 2 * hm,
        ;
        assert(c >= 0) by (nonlinear_arith)
            requires
                n as int == (2 * (m as int)) * c,
                n >= 2,
                m >= 2,
        ;
        lemma_fundamental_div_mod_converse_mod(n as int, 2 * (m as int), c, 0);
    }
}

/// The core cancellation: running the inverse stages over the forward
/// stages from block count `m` leaves every coefficient doubled once per
/// stage.
proof fn lemma_roundtrip_rec(a: Seq<u64>, tbl: Seq<u64>, itbl: Seq<u64>, m: int, n: int, q: u64)
    requires
        modulus_ok(q),
        a.len() == n,
        coeffs_reduced(a, q),
        tbl.len() == n,
        itbl.len() == n,
        coeffs_reduced(tbl, q),
        coeffs_reduced(itbl, q),
        forall|i: int|
            0 <= i < n ==> spec_mul_mod(tbl[i] as int, itbl[i] as int, q as int) == 1,
        1 <= m <= n,
        spec_is_pow2(m as nat),
        spec_is_pow2(n as nat),
    ensures
        spec_inv_rec(spec_fwd_rec(a, tbl, m, n, q), itbl, n / 2, n, q) == spec_double_iter(
            spec_inv_rec(a, itbl, m / 2, n, q),
            spec_stage_count(m, n),
            q,
        ),
    decreases n - m,
{
    if 2 * m > n {
        lemma_pow2_between(m as nat, n as nat);
        assert(m == n);
        assert(spec_fwd_rec(a, tbl, m, n, q) == a);
        assert(spec_stage_count(m, n) == 0);
    } else {
        let t = n / (2 * m);
        lemma_pow2_divides(m as nat, n as nat);
        assert(n == 2 * m * t && 1 <= t) by (nonlinear_arith)
            requires
                1 <= m,
                2 * m <= n,
                t == n / (2 * m),
                n % (2 * m) == 0,
        ;
        let a1 = spec_fstage(a, tbl, m, t, q);
        assert(spec_fwd_rec(a, tbl, m, n, q) == spec_fwd_rec(a1, tbl, 2 * m, n, q));
        lemma_fstage_reduced(a, tbl, m, t, q);
        lemma_roundtrip_rec(a1, tbl, itbl, 2 * m, n, q);
        assert(spec_inv_rec(a1, itbl, m, n, q) == spec_inv_rec(
            spec_istage(a1, itbl, m, t, q),
            itbl,
            m / 2,
            n,
            q,
        ));
        lemma_istage_undoes_fstage(a, tbl, itbl, m, t, n, q);
        assert(spec_istage(a1, itbl, m, t, q) == spec_poly_double(a, q));
        assert(spec_poly_double(a, q) == spec_double_iter(a, 1, q)) by {
            assert(spec_double_iter(a, 0nat, q) == a);
        }
        if m >= 2 {
            lemma_pow2_half(m as nat);
        }
        lemma_inv_rec_double_iter(a, itbl, m / 2, n, 1, q);
        assert(spec_inv_rec(a1, itbl, m, n, q) == spec_double_iter(
            spec_inv_rec(a, itbl, m / 2, n, q),
            1,
            q,
        ));
        lemma_double_iter_adds(spec_inv_rec(a, itbl, m / 2, n, q), spec_stage_count(2 * m, n), 1,
            q);
        assert(spec_stage_count(m, n) == 1 + spec_stage_count(2 * m, n));
    }
}

/// Doubling `c2` times then `c1` times is doubling `c1 + c2` times.
proof fn lemma_double_iter_adds(a: Seq<u64>, c1: nat, c2: nat, q: u64)
    ensures
        spec_double_iter(spec_double_iter(a, c2, q), c1, q) == spec_double_iter(
            a,
            (c1 + c2) as nat,
            q,
        ),
    decreases c1,
{
    if c1 == 0 {
    } else {
        lemma_double_iter_adds(a, (c1 - 1) as nat, c2, q);
    }
}

/// A forward stage keeps coefficients reduced.
proof fn lemma_fstage_reduced(a: Seq<u64>, tbl: Seq<u64>, m: int, t: int, q: u64)
    requires
        modulus_ok(q),
    ensures
        spec_fstage(a, tbl, m, t, q).len() == a.len(),
        coeffs_reduced(spec_fstage(a, tbl, m, t, q), q),
{
    let f = spec_fstage(a, tbl, m, t, q);
    assert forall|k: int| 0 <= k < f.len() implies f[k] < q by {
        let qi = q as int;
        let i = k / (2 * t);
        let r = k % (2 * t);
        let s = tbl[m + i] as int;
        if r < t {
            lemma_mod_bound(a[k] + spec_mul_mod(s, a[k + t] as int, qi), qi);
        } else {
            lemma_mod_bound(a[k - t] - spec_mul_mod(s, a[k] as int, qi), qi);
        }
    }
}

/// Iterated doubling is multiplication by the matching power of two.
proof fn lemma_double_iter_value(a: Seq<u64>, c: nat, q: u64, k: int)
    requires
        modulus_ok(q),
        0 <= k < a.len(),
        a[k] < q,
    ensures
        spec_double_iter(a, c, q).len() == a.len(),
        spec_double_iter(a, c, q)[k] == (((pow2(c) as int) * (a[k] as int)) % (q as int)) as u64,
    decreases c,
{
    let qi = q as int;
    if c == 0 {
        lemma_small_mod(a[k] as nat, q as nat);
        assert(pow2(0) == 1) by {
            lemma2_to64();
        }
    } else {
        lemma_double_iter_value(a, (c - 1) as nat, q, k);
        let p1 = pow2((c - 1) as nat) as int;
        let prev = spec_double_iter(a, (c - 1) as nat, q);
        assert(prev[k] == ((p1 * (a[k] as int)) % qi) as u64);
        lemma_mod_bound(p1 * (a[k] as int), qi);
        assert(spec_double_iter(a, c, q)[k] == ((2 * ((p1 * (a[k] as int)) % qi)) % qi) as u64);
        lemma_mul_mod_noop_right(2, p1 * (a[k] as int), qi);
        assert((2 * ((p1 * (a[k] as int)) % qi)) % qi == (2 * (p1 * (a[k] as int))) % qi);
        assert(pow2(c) as int == 2 * p1) by {
            lemma_pow2_adds(1nat, (c - 1) as nat);
            lemma2_to64();
        }
        assert(2 * (p1 * (a[k] as int)) == (2 * p1) * (a[k] as int)) by (nonlinear_arith);
    }
}

/// A forward stage distributes over coefficient-wise addition: every
/// butterfly is a linear map mod q.
proof fn lemma_fstage_linear(
    a: Seq<u64>,
    b: Seq<u64>,
    tbl: Seq<u64>,
    m: int,
    t: int,
    n: int,
    q: u64,
)
    requires
        modulus_ok(q),
        a.len() == n,
        b.len() == n,
        1 <= m,
        1 <= t,
        n == 2 * m * t,
    ensures
        spec_fstage(spec_poly_add(a, b, q), tbl, m, t, q) == spec_poly_add(
            spec_fstage(a, tbl, m, t, q),
            spec_fstage(b, tbl, m, t, q),
            q,
        ),
{
    let qi = q as int;
    let ab = spec_poly_add(a, b, q);
    let lhs = spec_fstage(ab, tbl, m, t, q);
    let rhs = spec_poly_add(spec_fstage(a, tbl, m, t, q), spec_fstage(b, tbl, m, t, q), q);
    assert forall|k: int| 0 <= k < n implies lhs[k] == rhs[k] by {
        lemma_block_of(k, m, t, n);
        let kr = k % (2 * t);
        let s = tbl[m + k / (2 * t)] as int;
        if kr < t {
            lemma_block_of(k + t, m, t, n);
            let xa = a[k] as int;
            let ya = a[k + t] as int;
            let xb = b[k] as int;
            let yb = b[k + t] as int;
            lemma_mul_mod_noop_right(s, ya + yb, qi);
            lemma_add_mod_noop_right(((xa + xb) % qi), s * (ya + yb), qi);
            lemma_add_mod_noop(xa + xb, s * (ya + yb), qi);
            assert(lhs[k] as int == (xa + xb + s * (ya + yb)) % qi);
            lemma_add_mod_noop_right(xa, s * ya, qi);
            lemma_mod_bound(s * ya, qi);
            lemma_add_mod_noop_right(xb, s * yb, qi);
            lemma_mod_bound(s * yb, qi);
            lemma_add_mod_noop(xa + s * ya, xb + s * yb, qi);
            assert(rhs[k] as int == (xa + s * ya + (xb + s * yb)) % qi);
            assert(s * (ya + yb) == s * ya + s * yb) by (nonlinear_arith);
        } else {
            lemma_block_of(k - t, m, t, n);
            let xa = a[k - t] as int;
            let ya = a[k] as int;
            let xb = b[k - t] as int;
            let yb = b[k] as int;
            lemma_mul_mod_noop_right(s, ya + yb, qi);
            lemma_sub_mod_noop_right(((xa + xb) % qi), s * (ya + yb), qi);
            lemma_sub_mod_noop(xa + xb, s * (ya + yb), qi);
            lemma_add_mod_noop(xa, xb, qi);
            assert(lhs[k] as int == ((xa + xb) % qi - (s * (ya + yb)) % qi) % qi);
            assert(lhs[k] as int == (xa + xb - s * (ya + yb)) % qi) by {
                lemma_mod_bound(xa + xb, qi);
                lemma_sub_mod_noop(xa + xb, s * (ya + yb), qi);
                lemma_small_mod(((xa + xb) % qi) as nat, q as nat);
            }
            lemma_sub_mod_noop_right(xa, s * ya, qi);
            lemma_sub_mod_noop_right(xb, s * yb, qi);
            lemma_add_mod_noop(xa - s * ya, xb - s * yb, qi);
            assert(rhs[k] as int == (xa - s * ya + (xb - s * yb)) % qi);
            assert(s * (ya + yb) == s * ya + s * yb) by (nonlinear_arith);
        }
    }
    assert(lhs =~= rhs);
}

/// The forward recursion distributes over coefficient-wise addition.
proof fn lemma_fwd_rec_linear(a: Seq<u64>, b: Seq<u64>, tbl: Seq<u64>, m: int, n: int, q: u64)
    requires
        modulus_ok(q),
        a.len() == n,
        b.len() == n,
        1 <= m <= n,
        spec_is_pow2(m as nat),
        spec_is_pow2(n as nat),
    ensures
        spec_fwd_rec(spec_poly_add(a, b, q), tbl, m, n, q) == spec_poly_add(
            spec_fwd_rec(a, tbl, m, n, q),
            spec_fwd_rec(b, tbl, m, n, q),
            q,
        ),
    decreases n - m,
{
    if 2 * m > n {
    } else {
        let t = n / (2 * m);
        lemma_pow2_divides(m as nat, n as nat);
        assert(n == 2 * m * t && 1 <= t) by (nonlinear_arith)
            requires
                1 <= m,
                2 * m <= n,
                t == n / (2 * m),
                n % (2 * m) == 0,
        ;
        lemma_fstage_linear(a, b, tbl, m, t, n, q);
        lemma_fwd_rec_linear(
            spec_fstage(a, tbl, m, t, q),
            spec_fstage(b, tbl, m, t, q),
            tbl,
            2 * m,
            n,
            q,
        );
    }
}

/// An inverse stage distributes over coefficient-wise addition.
proof fn lemma_istage_linear(
    a: Seq<u64>,
    b: Seq<u64>,
    itbl: Seq<u64>,
    h: int,
    t: int,
    n: int,
    q: u64,
)
    requires
        modulus_ok(q),
        a.len() == n,
        b.len() == n,
        1 <= h,
        1 <= t,
        n == 2 * h * t,
    ensures
        spec_istage(spec_poly_add(a, b, q), itbl, h, t, q) == spec_poly_add(
            spec_istage(a, itbl, h, t, q),
            spec_istage(b, itbl, h, t, q),
            q,
        ),
{
    let qi = q as int;
    let ab = spec_poly_add(a, b, q);
    let lhs = spec_istage(ab, itbl, h, t, q);
    let rhs = spec_poly_add(spec_istage(a, itbl, h, t, q), spec_istage(b, itbl, h, t, q), q);
    assert forall|k: int| 0 <= k < n implies lhs[k] == rhs[k] by {
        lemma_block_of(k, h, t, n);
        let kr = k % (2 * t);
        let s = itbl[h + k / (2 * t)] as int;
        if kr < t {
            lemma_block_of(k + t, h, t, n);
            let xa = a[k] as int;
            let ya = a[k + t] as int;
            let xb = b[k] as int;
            let yb = b[k + t] as int;
            lemma_add_mod_noop(xa + xb, ya + yb, qi);
            lemma_add_mod_noop(xa, xb, qi);
            lemma_add_mod_noop(ya, yb, qi);
            assert(lhs[k] as int == (xa + xb + (ya + yb)) % qi);
            lemma_add_mod_noop(xa + ya, xb + yb, qi);
            assert(rhs[k] as int == (xa + ya + (xb + yb)) % qi);
        } else {
            lemma_block_of(k - t, h, t, n);
            let xa = a[k - t] as int;
            let ya = a[k] as int;
            let xb = b[k - t] as int;
            let yb = b[k] as int;
            lemma_add_mod_noop(xa, xb, qi);
            lemma_add_mod_noop(ya, yb, qi);
            lemma_sub_mod_noop(xa + xb, ya + yb, qi);
            lemma_mul_mod_noop_right(s, xa + xb - (ya + yb), qi);
            assert(lhs[k] as int == (s * (xa + xb - (ya + yb))) % qi);
            lemma_sub_mod_noop(xa, ya, qi);
            lemma_sub_mod_noop(xb, yb, qi);
            lemma_mul_mod_noop_right(s, xa - ya, qi);
            lemma_mul_mod_noop_right(s, xb - yb, qi);
            lemma_mod_bound(s * (xa - ya), qi);
            lemma_mod_bound(s * (xb - yb), qi);
            lemma_add_mod_noop(s * (xa - ya), s * (xb - yb), qi);
            assert(rhs[k] as int == (s * (xa - ya) + s * (xb - yb)) % qi);
            assert(s * (xa + xb - (ya + yb)) == s * (xa - ya) + s * (xb - yb))
                by (nonlinear_arith);
        }
    }
    assert(lhs =~= rhs);
}

/// The inverse recursion distributes over coefficient-wise addition.
proof fn lemma_inv_rec_linear(a: Seq<u64>, b: Seq<u64>, itbl: Seq<u64>, h: int, n: int, q: u64)
    requires
        modulus_ok(q),
        a.len() == n,
        b.len() == n,
        h >= 1 ==> spec_is_pow2(h as nat) && spec_is_pow2(n as nat) && 2 * h <= n,
    ensures
        spec_inv_rec(spec_poly_add(a, b, q), itbl, h, n, q) == spec_poly_add(
            spec_inv_rec(a, itbl, h, n, q),
            spec_inv_rec(b, itbl, h, n, q),
            q,
        ),
    decreases h,
{
    if h < 1 {
    } else {
        let t = n / (2 * h);
        lemma_pow2_divides(h as nat, n as nat);
        assert(n == 2 * h * t && 1 <= t) by (nonlinear_arith)
            requires
                1 <= h,
                2 * h <= n,
                t == n / (2 * h),
                n % (2 * h) == 0,
        ;
        lemma_istage_linear(a, b, itbl, h, t, n, q);
        if h >= 2 {
            lemma_pow2_half(h as nat);
        }
        lemma_inv_rec_linear(
            spec_istage(a, itbl, h, t, q),
            spec_istage(b, itbl, h, t, q),
            itbl,
            h / 2,
            n,
            q,
        );
    }
}

/// Scaling by a fixed constant distributes over coefficient-wise
/// addition.
proof fn lemma_scale_linear(x: Seq<u64>, y: Seq<u64>, c: u64, q: u64)
    requires
        modulus_ok(q),
        x.len() == y.len(),
    ensures
        spec_poly_scale(spec_poly_add(x, y, q), c, q) == spec_poly_add(
            spec_poly_scale(x, c, q),
            spec_poly_scale(y, c, q),
            q,
        ),
{
    let qi = q as int;
    let lhs = spec_poly_scale(spec_poly_add(x, y, q), c, q);
    let rhs = spec_poly_add(spec_poly_scale(x, c, q), spec_poly_scale(y, c, q), q);
    assert forall|k: int| 0 <= k < x.len() implies lhs[k] == rhs[k] by {
        let xv = x[k] as int;
        let yv = y[k] as int;
        let cv = c as int;
        lemma_add_mod_noop(xv, yv, qi);
        lemma_mul_mod_noop_left(xv + yv, cv, qi);
        assert(lhs[k] as int == ((xv + yv) * cv) % qi);
        lemma_mul_mod_noop_left(xv, cv, qi);
        lemma_mul_mod_noop_left(yv, cv, qi);
        lemma_mod_bound(xv * cv, qi);
        lemma_mod_bound(yv * cv, qi);
        lemma_add_mod_noop(xv * cv, yv * cv, qi);
        assert(rhs[k] as int == (xv * cv + yv * cv) % qi);
        assert((xv + yv) * cv == xv * cv + yv * cv) by (nonlinear_arith);
    }
    assert(lhs =~= rhs);
}

/// The point-wise product distributes over coefficient-wise addition in
/// its first operand.
proof fn lemma_pointwise_linear(x: Seq<u64>, y: Seq<u64>, s: Seq<u64>, q: u64)
    requires
        modulus_ok(q),
        x.len() == y.len(),
    ensures
        spec_poly_pointwise(spec_poly_add(x, y, q), s, q) == spec_poly_add(
            spec_poly_pointwise(x, s, q),
            spec_poly_pointwise(y, s, q),
            q,
        ),
{
    let qi = q as int;
    let lhs = spec_poly_pointwise(spec_poly_add(x, y, q), s, q);
    let rhs = spec_poly_add(spec_poly_pointwise(x, s, q), spec_poly_pointwise(y, s, q), q);
    assert forall|k: int| 0 <= k < x.len() implies lhs[k] == rhs[k] by {
        let xv = x[k] as int;
        let yv = y[k] as int;
        let sv = s[k] as int;
        lemma_add_mod_noop(xv, yv, qi);
        lemma_mul_mod_noop_left(xv + yv, sv, qi);
        assert(lhs[k] as int == ((xv + yv) * sv) % qi);
        lemma_mul_mod_noop_left(xv, sv, qi);
        lemma_mul_mod_noop_left(yv, sv, qi);
        lemma_mod_bound(xv * sv, qi);
        lemma_mod_bound(yv * sv, qi);
        lemma_add_mod_noop(xv * sv, yv * sv, qi);
        assert(rhs[k] as int == (xv * sv + yv * sv) % qi);
        assert((xv + yv) * sv == xv * sv + yv * sv) by (nonlinear_arith);
    }
    assert(lhs =~= rhs);
}

/// The NTT-based product distributes over coefficient-wise addition of
/// two coefficient-form operands, for a fixed NTT-form second operand:
/// every pass of the pipeline is linear.
pub proof fn lemma_ntt_mul_linear(a1: RqPoly, a2: RqPoly, asum: RqPoly, s: RqPoly,
    ctx: RqPolyContext)
    requires
        ctx.wf(),
        ctx.is_ntt_enabled,
        a1.wf(ctx.n as nat, ctx.q),
        a2.wf(ctx.n as nat, ctx.q),
        s.wf(ctx.n as nat, ctx.q),
        !a1.is_ntt_form,
        !a2.is_ntt_form,
        !asum.is_ntt_form,
        s.is_ntt_form,
        asum.coeffs@ == spec_poly_add(a1.coeffs@, a2.coeffs@, ctx.q),
    ensures
        spec_ntt_mul(asum, s, ctx) == spec_poly_add(
            spec_ntt_mul(a1, s, ctx),
            spec_ntt_mul(a2, s, ctx),
            ctx.q,
        ),
{
    let n = ctx.n as int;
    let q = ctx.q;
    let tbl = ctx.psi_table@;
    let itbl = ctx.psi_inv_table@;
    let f1 = spec_fwd_rec(a1.coeffs@, tbl, 1, n, q);
    let f2 = spec_fwd_rec(a2.coeffs@, tbl, 1, n, q);
    lemma_fwd_rec_linear(a1.coeffs@, a2.coeffs@, tbl, 1, n, q);
    lemma_fwd_rec_len(a1.coeffs@, tbl, 1, n, q);
    lemma_fwd_rec_len(a2.coeffs@, tbl, 1, n, q);
    assert(spec_ntt_of(asum, ctx) == spec_poly_add(f1, f2, q));
    lemma_pointwise_linear(f1, f2, s.coeffs@, q);
    let p1 = spec_poly_pointwise(f1, s.coeffs@, q);
    let p2 = spec_poly_pointwise(f2, s.coeffs@, q);
    assert(spec_poly_pointwise(spec_ntt_of(asum, ctx), spec_ntt_of(s, ctx), q) == spec_poly_add(
        p1,
        p2,
        q,
    ));
    if n >= 2 {
        lemma_pow2_half(n as nat);
    }
    lemma_inv_rec_linear(p1, p2, itbl, n / 2, n, q);
    let i1 = spec_inv_rec(p1, itbl, n / 2, n, q);
    let i2 = spec_inv_rec(p2, itbl, n / 2, n, q);
    lemma_inv_rec_len(p1, itbl, n / 2, n, q);
    lemma_inv_rec_len(p2, itbl, n / 2, n, q);
    lemma_scale_linear(i1, i2, ctx.n_inv, q);
}

/// The round-trip law: over a well-formed context with the transform
/// enabled, the inverse transform undoes the forward transform on every
/// well-formed coefficient vector. This is what makes the tag discipline
/// sound: a polynomial taken to the NTT domain and back is unchanged.
pub proof fn lemma_ntt_roundtrip(a: Seq<u64>, ctx: RqPolyContext)
    requires
        ctx.wf(),
        ctx.is_ntt_enabled,
        a.len() == ctx.n,
        coeffs_reduced(a, ctx.q),
    ensures
        spec_inv(spec_fwd(a, ctx.psi_table@, ctx.q), ctx.psi_inv_table@, ctx.n_inv, ctx.q) == a,
{
    let n = ctx.n as int;
    let q = ctx.q;
    let qi = q as int;
    let tbl = ctx.psi_table@;
    let itbl = ctx.psi_inv_table@;
    lemma_roundtrip_rec(a, tbl, itbl, 1, n, q);
    let c = spec_stage_count(1, n);
    assert(spec_inv_rec(a, itbl, 0, n, q) == a);
    let fwd = spec_fwd_rec(a, tbl, 1, n, q);
    lemma_fwd_rec_len(a, tbl, 1, n, q);
    assert(spec_inv_rec(fwd, itbl, n / 2, n, q) == spec_double_iter(a, c, q));
    lemma_stage_count_pow2(1, n);
    assert(pow2(c) as int == n);
    let inner = spec_inv_rec(fwd, itbl, n / 2, n, q);
    let scaled = spec_inv(fwd, itbl, ctx.n_inv, q);
    assert(fwd.len() == n);
    lemma_double_iter_len(a, c, q);
    assert forall|k: int| 0 <= k < n implies scaled[k] == a[k] by {
        lemma_double_iter_value(a, c, q, k);
        let av = a[k] as int;
        let ni = ctx.n_inv as int;
        let dval = (n * av) % qi;
        assert(inner[k] == dval as u64);
        lemma_mod_bound(n * av, qi);
        assert(scaled[k] == ((dval * ni) % qi) as u64);
        lemma_mul_mod_noop_left(n * av, ni, qi);
        assert((dval * ni) % qi == ((n * av) * ni) % qi);
        assert((n * av) * ni == (n * ni) * av) by (nonlinear_arith);
        lemma_mul_mod_noop_left(n * ni, av, qi);
        assert(((n * ni) * av) % qi == (((n * ni) % qi) * av) % qi);
        assert((n * ni) % qi == 1);
        lemma_small_mod(a[k] as nat, q as nat);
        assert(scaled[k] == ((1 * av) % qi) as u64);
    }
    assert(scaled =~= a);
}

/// The inverse recursion preserves length.
proof fn lemma_inv_rec_len(a: Seq<u64>, itbl: Seq<u64>, h: int, n: int, q: u64)
    ensures
        spec_inv_rec(a, itbl, h, n, q).len() == a.len(),
    decreases h,
{
    if h < 1 {
    } else {
        lemma_inv_rec_len(spec_istage(a, itbl, h, n / (2 * h), q), itbl, h / 2, n, q);
    }
}

/// The NTT-based product has one coefficient per slot.
pub proof fn lemma_ntt_mul_len(a: RqPoly, b: RqPoly, ctx: RqPolyContext)
    requires
        ctx.wf(),
        ctx.is_ntt_enabled,
        a.wf(ctx.n as nat, ctx.q),
        b.wf(ctx.n as nat, ctx.q),
    ensures
        spec_ntt_mul(a, b, ctx).len() == ctx.n,
{
    let n = ctx.n as int;
    if !a.is_ntt_form {
        lemma_fwd_rec_len(a.coeffs@, ctx.psi_table@, 1, n, ctx.q);
    }
    if !b.is_ntt_form {
        lemma_fwd_rec_len(b.coeffs@, ctx.psi_table@, 1, n, ctx.q);
    }
    let pw = spec_poly_pointwise(spec_ntt_of(a, ctx), spec_ntt_of(b, ctx), ctx.q);
    assert(pw.len() == n);
    lemma_inv_rec_len(pw, ctx.psi_inv_table@, n / 2, n, ctx.q);
}

/// The forward recursion preserves length.
proof fn lemma_fwd_rec_len(a: Seq<u64>, tbl: Seq<u64>, m: int, n: int, q: u64)
    requires
        a.len() == n,
    ensures
        spec_fwd_rec(a, tbl, m, n, q).len() == n,
    decreases n - m,
{
    if m < 1 || 2 * m > n {
    } else {
        lemma_fwd_rec_len(spec_fstage(a, tbl, m, n / (2 * m), q), tbl, 2 * m, n, q);
    }
}

/// The number of stages from block count `m` doubles `m` up to exactly
/// `n`.
proof fn lemma_stage_count_pow2(m: int, n: int)
    requires
        1 <= m <= n,
        spec_is_pow2(m as nat),
        spec_is_pow2(n as nat),
    ensures
        (pow2(spec_stage_count(m, n)) as int) * m == n,
    decreases n - m,
{
    if 2 * m > n {
        lemma_pow2_between(m as nat, n as nat);
        lemma2_to64();
        assert(spec_stage_count(m, n) == 0);
        assert((pow2(0nat) as int) * m == m);
    } else {
        lemma_stage_count_pow2(2 * m, n);
        let c = spec_stage_count(2 * m, n);
        lemma_pow2_adds(1nat, c);
        lemma2_to64();
        assert(spec_stage_count(m, n) == 1 + c);
        assert(pow2((1 + c) as nat) as int == 2 * (pow2(c) as int));
        assert((pow2((1 + c) as nat) as int) * m == n) by (nonlinear_arith)
            requires
                (pow2(c) as int) * (2 * m) == n,
                pow2((1 + c) as nat) as int == 2 * (pow2(c) as int),
        ;
    }
}

/// A power of two that is at least 2 is even, and half of it is again a
/// power of two.
proof fn lemma_pow2_half(x: nat)
    requires
        spec_is_pow2(x),
        x >= 2,
    ensures
        x % 2 == 0,
        spec_is_pow2((x / 2) as nat),
{
}

/// The view of a polynomial in the NTT domain: its own coefficients when
/// already transformed, otherwise their forward transform.
pub open spec fn spec_ntt_of(p: RqPoly, ctx: RqPolyContext) -> Seq<u64> {
    if p.is_ntt_form {
        p.coeffs@
    } else {
        spec_fwd(p.coeffs@, ctx.psi_table@, ctx.q)
    }
}

/// What `multiply_fast` computes: both operands taken to the NTT domain,
/// multiplied point-wise, and the product taken back to coefficient form.
pub open spec fn spec_ntt_mul(a: RqPoly, b: RqPoly, ctx: RqPolyContext) -> Seq<u64> {
    spec_inv(
        spec_poly_pointwise(spec_ntt_of(a, ctx), spec_ntt_of(b, ctx), ctx.q),
        ctx.psi_inv_table@,
        ctx.n_inv,
        ctx.q,
    )
}

/// An element-wise copy.
pub(crate) fn clone_coeffs(v: &Vec<u64>) -> (r: Vec<u64>)
    ensures
        r@ == v@,
{
    let mut r: Vec<u64> = Vec::new();
    for i in 0..v.len()
        invariant
            r@.len() == i,
            forall|j: int| 0 <= j < i ==> r@[j] == v@[j],
    {
        r.push(v[i]);
    }
    proof {
        assert(r@ =~= v@);
    }
    r
}

impl RqPoly {
    /// In-place forward negacyclic NTT. The polynomial must be in
    /// coefficient form; afterwards it carries the NTT tag.
    #[verifier::loop_isolation(false)]
    pub fn forward_transform(&mut self, ctx: &RqPolyContext)
        requires
            ctx.wf(),
            ctx.is_ntt_enabled,
            old(self).wf(ctx.n as nat, ctx.q),
            !old(self).is_ntt_form,
        ensures
            final(self).coeffs@ == spec_fwd(old(self).coeffs@, ctx.psi_table@, ctx.q),
            final(self).is_ntt_form,
            final(self).wf(ctx.n as nat, ctx.q),
    {
        let n = ctx.n;
        let q = ctx.q;
        let ghost a0 = self.coeffs@;
        let ghost tbl = ctx.psi_table@;
        let mut m: usize = 1;
        let mut t: usize = n / 2;
        proof {
            if 2 <= n {
                lemma_pow2_half(n as nat);
            }
        }
        while 2 * m <= n
            invariant
                1 <= m <= n,
                2 * m <= n ==> {
                    &&& n as int == 2 * (m as int) * (t as int)
                    &&& 1 <= t
                    &&& spec_is_pow2(t as nat)
                },
                self.coeffs@.len() == n,
                coeffs_reduced(self.coeffs@, q),
                self.is_ntt_form == old(self).is_ntt_form,
                spec_fwd_rec(self.coeffs@, tbl, m as int, n as int, q) == spec_fwd_rec(
                    a0,
                    tbl,
                    1,
                    n as int,
                    q,
                ),
            decreases n - m,
        {
            let ghost prev = self.coeffs@;
            forward_stage(&mut self.coeffs, &ctx.psi_table, m, t, n, q);
            proof {
                assert(n as int == (t as int) * (2 * (m as int)) + 0) by (nonlinear_arith)
                    requires
                        n as int == 2 * (m as int) * (t as int),
                ;
                lemma_fundamental_div_mod_converse(n as int, 2 * (m as int), t as int, 0);
                assert(spec_fwd_rec(prev, tbl, m as int, n as int, q) == spec_fwd_rec(
                    self.coeffs@,
                    tbl,
                    2 * (m as int),
                    n as int,
                    q,
                ));
                if 2 * (2 * m) <= n {
                    assert(2 <= t) by (nonlinear_arith)
                        requires
                            n as int == 2 * (m as int) * (t as int),
                            4 * (m as int) <= n as int,
                            1 <= t,
                            1 <= m,
                    ;
                    lemma_pow2_half(t as nat);
                    assert(n as int == 2 * (2 * (m as int)) * ((t as int) / 2)) by (
                    nonlinear_arith)
                        requires
                            n as int == 2 * (m as int) * (t as int),
                            t % 2 == 0,
                    ;
                }
            }
            m = m * 2;
            t = t / 2;
        }
        self.is_ntt_form = true;
    }

    /// In-place inverse negacyclic NTT, including the final scaling by
    /// `n^{-1} mod q`. The polynomial must be in NTT form; afterwards it
    /// carries the coefficient tag.
    #[verifier::loop_isolation(false)]
    pub fn inverse_transform(&mut self, ctx: &RqPolyContext)
        requires
            ctx.wf(),
            ctx.is_ntt_enabled,
            old(self).wf(ctx.n as nat, ctx.q),
            old(self).is_ntt_form,
        ensures
            final(self).coeffs@ == spec_inv(
                old(self).coeffs@,
                ctx.psi_inv_table@,
                ctx.n_inv,
                ctx.q,
            ),
            !final(self).is_ntt_form,
            final(self).wf(ctx.n as nat, ctx.q),
    {
        let n = ctx.n;
        let q = ctx.q;
        let ghost a0 = self.coeffs@;
        let ghost itbl = ctx.psi_inv_table@;
        let mut h: usize = n / 2;
        let mut t: usize = 1;
        proof {
            if 2 <= n {
                lemma_pow2_half(n as nat);
            }
        }
        while h >= 1
            invariant
                h <= n,
                t <= n,
                h >= 1 ==> {
                    &&& n as int == 2 * (h as int) * (t as int)
                    &&& 1 <= t
                    &&& spec_is_pow2(h as nat)
                },
                self.coeffs@.len() == n,
                coeffs_reduced(self.coeffs@, q),
                self.is_ntt_form == old(self).is_ntt_form,
                spec_inv_rec(self.coeffs@, itbl, h as int, n as int, q) == spec_inv_rec(
                    a0,
                    itbl,
                    n as int / 2,
                    n as int,
                    q,
                ),
            decreases h,
        {
            let ghost prev = self.coeffs@;
            inverse_stage(&mut self.coeffs, &ctx.psi_inv_table, h, t, n, q);
            proof {
                assert(n as int == (t as int) * (2 * (h as int)) + 0) by (nonlinear_arith)
                    requires
                        n as int == 2 * (h as int) * (t as int),
                ;
                lemma_fundamental_div_mod_converse(n as int, 2 * (h as int), t as int, 0);
                assert(spec_inv_rec(prev, itbl, h as int, n as int, q) == spec_inv_rec(
                    self.coeffs@,
                    itbl,
                    (h as int) / 2,
                    n as int,
                    q,
                ));
                if h >= 2 {
                    lemma_pow2_half(h as nat);
                    assert(n as int == 2 * ((h as int) / 2) * (2 * (t as int)) && 2 * (t as int)
                        <= n as int) by (nonlinear_arith)
                        requires
                            n as int == 2 * (h as int) * (t as int),
                            h % 2 == 0,
                            h >= 2,
                            t >= 1,
                    ;
                }
            }
            h = h / 2;
            t = t * 2;
        }
        self.mul_scalar_inplace(ctx.n_inv, q);
        self.is_ntt_form = false;
    }

    /// Point-wise product of two polynomials held in NTT form; the result
    /// is again in NTT form.
    #[verifier::loop_isolation(false)]
    pub fn multiply_pointwise(&self, other: &RqPoly, q: u64) -> (r: RqPoly)
        requires
            modulus_ok(q),
            self.coeffs@.len() == other.coeffs@.len(),
            coeffs_reduced(self.coeffs@, q),
            coeffs_reduced(other.coeffs@, q),
            self.is_ntt_form,
            other.is_ntt_form,
        ensures
            r.coeffs@ == spec_poly_pointwise(self.coeffs@, other.coeffs@, q),
            r.is_ntt_form,
            coeffs_reduced(r.coeffs@, q),
    {
        let n = self.coeffs.len();
        let mut out: Vec<u64> = Vec::new();
        for i in 0..n
            invariant
                out@.len() == i,
                forall|j: int|
                    0 <= j < i ==> out@[j] == spec_poly_pointwise(self.coeffs@, other.coeffs@, q)[j]
                        && out@[j] < q,
        {
            out.push(mul_mod(self.coeffs[i], other.coeffs[i], q));
        }
        proof {
            assert(out@ =~= spec_poly_pointwise(self.coeffs@, other.coeffs@, q));
        }
        RqPoly { coeffs: out, is_ntt_form: true }
    }

    /// NTT-based negacyclic product: operands are brought to the NTT
    /// domain (transforming copies where needed), multiplied point-wise,
    /// and the product is taken back to coefficient form. Cost O(n log n).
    pub fn multiply_fast(&self, other: &RqPoly, ctx: &RqPolyContext) -> (r: RqPoly)
        requires
            ctx.wf(),
            ctx.is_ntt_enabled,
            self.wf(ctx.n as nat, ctx.q),
            other.wf(ctx.n as nat, ctx.q),
        ensures
            r.coeffs@ == spec_ntt_mul(*self, *other, *ctx),
            !r.is_ntt_form,
            r.wf(ctx.n as nat, ctx.q),
    {
        let mut a = RqPoly { coeffs: clone_coeffs(&self.coeffs), is_ntt_form: self.is_ntt_form };
        if !a.is_ntt_form {
            a.forward_transform(ctx);
        }
        let mut b = RqPoly { coeffs: clone_coeffs(&other.coeffs), is_ntt_form: other.is_ntt_form };
        if !b.is_ntt_form {
            b.forward_transform(ctx);
        }
        proof {
            assert(a.coeffs@ == spec_ntt_of(*self, *ctx));
            assert(b.coeffs@ == spec_ntt_of(*other, *ctx));
        }
        let mut prod = a.multiply_pointwise(&b, ctx.q);
        prod.inverse_transform(ctx);
        prod
    }
}

impl RqPolyContext {
    /// A context with the transform disabled: every product falls back to
    /// the schoolbook path.
    fn plain(n: usize, q: u64) -> (r: RqPolyContext)
        requires
            modulus_ok(q),
            1 <= n <= 0x0010_0000,
        ensures
            r.wf(),
            r.n == n,
            r.q == q,
            !r.is_ntt_enabled,
    {
        RqPolyContext {
            n,
            q,
            is_ntt_enabled: false,
            psi_table: Vec::new(),
            psi_inv_table: Vec::new(),
            n_inv: 0,
        }
    }

    /// Builds the ring context for dimension `n` and modulus `q`.
    ///
    /// The transform is enabled only when `n` is a power of two at least
    /// 2, `q == 1 (mod 2n)`, a primitive `2n`-th root of unity `psi` is
    /// found (its order is verified by checking `psi^n == -1 mod q`), and
    /// every precomputed twiddle as well as `n` itself is confirmed
    /// invertible by multiplying against its computed inverse. The checks
    /// make the table facts unconditional: a modulus that fails any of
    /// them (for instance a non-prime) yields a schoolbook-only context.
    #[verifier::loop_isolation(false)]
    pub fn new(n: usize, q: u64) -> (r: RqPolyContext)
        requires
            modulus_ok(q),
            1 <= n <= 0x0010_0000,
        ensures
            r.wf(),
            r.n == n,
            r.q == q,
            r.is_ntt_enabled ==> {
                &&& spec_is_pow2(n as nat)
                &&& n >= 2
                &&& (q as int) % (2 * (n as int)) == 1
            },
    {
        if n < 2 || !is_power_of_two(n) {
            return Self::plain(n, q);
        }
        let two_n: u64 = 2 * (n as u64);
        if q % two_n != 1 {
            return Self::plain(n, q);
        }
        proof {
            lemma_fundamental_div_mod(q as int, two_n as int);
            assert((two_n as int) * ((q as int) / (two_n as int)) >= two_n as int) by (
            nonlinear_arith)
                requires
                    (q as int) / (two_n as int) >= 1,
                    two_n >= 1,
            ;
            assert((q as int) / (two_n as int) >= 1);
        }
        // here q > 2n, so n fits below q
        let exp = (q - 1) / two_n;
        let mut psi: u64 = 0;
        let mut found = false;
        let mut g: u64 = 2;
        while g < 66 && !found
            invariant
                found ==> psi < q,
            decreases 66 - g,
        {
            let cand = pow_mod(g, exp, q);
            if pow_mod(cand, n as u64, q) == q - 1 {
                psi = cand;
                found = true;
            }
            g = g + 1;
        }
        if !found {
            return Self::plain(n, q);
        }
        let mut bits: usize = 0;
        let mut mm: usize = n;
        while mm > 1 && bits < 32
            invariant
                bits <= 32,
            decreases mm,
        {
            mm = mm / 2;
            bits = bits + 1;
        }
        let mut tbl: Vec<u64> = Vec::new();
        let mut itbl: Vec<u64> = Vec::new();
        let mut i: usize = 0;
        while i < n
            invariant
                i <= n,
                tbl@.len() == i,
                itbl@.len() == i,
                bits <= 32,
                psi < q,
                forall|j: int|
                    0 <= j < i ==> tbl@[j] < q && itbl@[j] < q && spec_mul_mod(
                        tbl@[j] as int,
                        itbl@[j] as int,
                        q as int,
                    ) == 1,
            decreases n - i,
        {
            let w = pow_mod(psi, bit_reverse(i as u64, bits), q);
            let wi = inv_mod(w, q);
            if mul_mod(w, wi, q) != 1 {
                return Self::plain(n, q);
            }
            tbl.push(w);
            itbl.push(wi);
            i = i + 1;
        }
        let n_inv = inv_mod(n as u64, q);
        if mul_mod(n as u64, n_inv, q) != 1 {
            return Self::plain(n, q);
        }
        RqPolyContext { n, q, is_ntt_enabled: true, psi_table: tbl, psi_inv_table: itbl, n_inv }
    }
}

/// Exec check that `n` is a power of two.
fn is_power_of_two(n: usize) -> (r: bool)
    ensures
        r == spec_is_pow2(n as nat),
{
    let mut m = n;
    loop
        invariant
            spec_is_pow2(n as nat) == spec_is_pow2(m as nat),
        decreases m,
    {
        if m == 0 {
            return false;
        }
        if m == 1 {
            return true;
        }
        if m % 2 == 1 {
            return false;
        }
        m = m / 2;
    }
}

/// Reverses the low `bits` bits of `x`. Only used to order the twiddle
/// table; no contract beyond termination is needed, since every table
/// fact the transforms use is checked against the finished table.
fn bit_reverse(x: u64, bits: usize) -> (r: u64)
    requires
        bits <= 32,
{
    let mut r: u64 = 0;
    let mut v: u64 = x;
    proof {
        lemma2_to64();
    }
    for b in 0..bits
        invariant
            bits <= 32,
            (r as nat) < pow2(b as nat),
    {
        proof {
            lemma_pow2_adds(b as nat, 1nat);
            lemma2_to64();
            if b + 1 < 32 {
                lemma_pow2_strictly_increases((b + 1) as nat, 32nat);
            }
        }
        r = r * 2 + v % 2;
        v = v / 2;
    }
    r
}

} // verus!
