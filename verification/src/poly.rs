//! The polynomial quotient ring R_q = Z_q[X] / (X^n + 1).
//!
//! A polynomial is an ordered vector of exactly `n` reduced coefficients
//! together with a representation tag: coefficient form, or NTT
//! (point-value) form. Coefficient-wise addition and subtraction are valid
//! in either form as long as both operands share one; the schoolbook
//! negacyclic product is defined on coefficient form only.

use vstd::prelude::*;
use vstd::arithmetic::div_mod::{
    lemma_add_mod_noop, lemma_fundamental_div_mod, lemma_fundamental_div_mod_converse_mod,
    lemma_mod_bound, lemma_mul_mod_noop_left, lemma_sub_mod_noop,
};
use crate::arith::{add_mod, modulus_ok, mul_mod, spec_add_mod, spec_mul_mod, spec_sub_mod, sub_mod};

verus! {

/// Every entry of the sequence lies in `[0, q)`.
pub open spec fn coeffs_reduced(s: Seq<u64>, q: u64) -> bool {
    forall|i: int| 0 <= i < s.len() ==> s[i] < q
}

/// Coefficient-wise `(a + b) mod q`.
pub open spec fn spec_poly_add(a: Seq<u64>, b: Seq<u64>, q: u64) -> Seq<u64> {
    Seq::new(a.len(), |i: int| spec_add_mod(a[i] as int, b[i] as int, q as int) as u64)
}

/// Coefficient-wise `(a - b) mod q`.
pub open spec fn spec_poly_sub(a: Seq<u64>, b: Seq<u64>, q: u64) -> Seq<u64> {
    Seq::new(a.len(), |i: int| spec_sub_mod(a[i] as int, b[i] as int, q as int) as u64)
}

/// Coefficient-wise `(c * a) mod q`.
pub open spec fn spec_poly_scale(a: Seq<u64>, c: u64, q: u64) -> Seq<u64> {
    Seq::new(a.len(), |i: int| spec_mul_mod(a[i] as int, c as int, q as int) as u64)
}

/// Point-wise `(a[i] * b[i]) mod q`, the product of two polynomials held
/// in NTT form.
pub open spec fn spec_poly_pointwise(a: Seq<u64>, b: Seq<u64>, q: u64) -> Seq<u64> {
    Seq::new(a.len(), |i: int| spec_mul_mod(a[i] as int, b[i] as int, q as int) as u64)
}

/// The `i`-th signed summand of the negacyclic convolution coefficient
/// `k`: the pair `(i, j)` with `i + j = k` contributes `a[i]*b[j]`, and the
/// wrapped pair with `i + j = k + n` contributes `-a[i]*b[j]`, since
/// `X^n = -1` in the quotient ring.
pub open spec fn spec_conv_term(a: Seq<u64>, b: Seq<u64>, n: int, k: int, i: int) -> int {
    if i <= k {
        (a[i] as int) * (b[k - i] as int)
    } else {
        -((a[i] as int) * (b[k + n - i] as int))
    }
}

/// Sum of the first `i` signed summands of convolution coefficient `k`.
pub open spec fn spec_conv_psum(a: Seq<u64>, b: Seq<u64>, n: int, k: int, i: int) -> int
    decreases i,
{
    if i <= 0 {
        0
    } else {
        spec_conv_psum(a, b, n, k, i - 1) + spec_conv_term(a, b, n, k, i - 1)
    }
}

/// The negacyclic product of two coefficient-form polynomials: coefficient
/// `k` is the full signed sum over all `n` summands, reduced modulo `q`.
pub open spec fn spec_negacyclic_mul(a: Seq<u64>, b: Seq<u64>, q: u64) -> Seq<u64> {
    Seq::new(a.len(), |k: int| (spec_conv_psum(a, b, a.len() as int, k, a.len() as int) % (
    q as int)) as u64)
}

/// The signed convolution sum over coefficient-wise-added operands is
/// congruent mod q to the two separate sums added.
proof fn lemma_conv_psum_linear(
    a1: Seq<u64>,
    a2: Seq<u64>,
    asum: Seq<u64>,
    b: Seq<u64>,
    n: int,
    k: int,
    i: int,
    q: u64,
)
    requires
        modulus_ok(q),
        a1.len() == n,
        a2.len() == n,
        asum.len() == n,
        asum == spec_poly_add(a1, a2, q),
        0 <= i <= n,
    ensures
        spec_conv_psum(asum, b, n, k, i) % (q as int) == (spec_conv_psum(a1, b, n, k, i)
            + spec_conv_psum(a2, b, n, k, i)) % (q as int),
    decreases i,
{
    let qi = q as int;
    if i <= 0 {
    } else {
        lemma_conv_psum_linear(a1, a2, asum, b, n, k, i - 1, q);
        let p_s = spec_conv_psum(asum, b, n, k, i - 1);
        let p_1 = spec_conv_psum(a1, b, n, k, i - 1);
        let p_2 = spec_conv_psum(a2, b, n, k, i - 1);
        let t_s = spec_conv_term(asum, b, n, k, i - 1);
        let t_1 = spec_conv_term(a1, b, n, k, i - 1);
        let t_2 = spec_conv_term(a2, b, n, k, i - 1);
        let j = i - 1;
        let bj: int = if j <= k {
            b[k - j] as int
        } else {
            b[k + n - j] as int
        };
        assert(asum[j] as int == ((a1[j] as int) + (a2[j] as int)) % qi);
        // the summand over the added operand is congruent to the two
        // summands added
        assert(t_s % qi == (t_1 + t_2) % qi) by {
            lemma_mul_mod_noop_left((a1[j] as int) + (a2[j] as int), bj, qi);
            assert(((a1[j] as int) + (a2[j] as int)) * bj == (a1[j] as int) * bj + (
            a2[j] as int) * bj) by (nonlinear_arith);
            if j <= k {
                assert(t_s == (asum[j] as int) * bj);
                assert(t_1 + t_2 == (a1[j] as int) * bj + (a2[j] as int) * bj);
            } else {
                assert(t_s == -((asum[j] as int) * bj));
                assert(t_1 + t_2 == -((a1[j] as int) * bj + (a2[j] as int) * bj));
                lemma_mod_neg_congruent((asum[j] as int) * bj, (a1[j] as int) * bj + (
                a2[j] as int) * bj, qi);
            }
        }
        lemma_add_mod_noop(p_s, t_s, qi);
        lemma_add_mod_noop(p_1 + p_2, t_1 + t_2, qi);
        assert((p_s + t_s) % qi == (p_s % qi + t_s % qi) % qi);
        assert((p_1 + p_2 + (t_1 + t_2)) % qi == ((p_1 + p_2) % qi + (t_1 + t_2) % qi) % qi);
    }
}

/// If `x == y mod q` then `-x == -y mod q`.
proof fn lemma_mod_neg_congruent(x: int, y: int, q: int)
    requires
        q >= 1,
        x % q == y % q,
    ensures
        (-x) % q == (-y) % q,
{
    lemma_fundamental_div_mod(x, q);
    lemma_fundamental_div_mod(y, q);
    lemma_mod_bound(x, q);
    lemma_mod_bound(y, q);
    if x % q == 0 {
        assert((-(x / q)) * q + 0 == -x && (-(y / q)) * q + 0 == -y) by (nonlinear_arith)
            requires
                x == q * (x / q) + x % q,
                y == q * (y / q) + y % q,
                x % q == 0,
                y % q == 0,
        ;
        lemma_fundamental_div_mod_converse_mod(-x, q, -(x / q), 0);
        lemma_fundamental_div_mod_converse_mod(-y, q, -(y / q), 0);
    } else {
        assert((-(x / q) - 1) * q + (q - x % q) == -x && (-(y / q) - 1) * q + (q - y % q) == -y)
            by (nonlinear_arith)
            requires
                x == q * (x / q) + x % q,
                y == q * (y / q) + y % q,
        ;
        lemma_fundamental_div_mod_converse_mod(-x, q, -(x / q) - 1, q - x % q);
        lemma_fundamental_div_mod_converse_mod(-y, q, -(y / q) - 1, q - y % q);
    }
}

/// The schoolbook negacyclic product distributes over coefficient-wise
/// addition in its first operand.
pub proof fn lemma_negacyclic_mul_linear(a1: Seq<u64>, a2: Seq<u64>, b: Seq<u64>, q: u64)
    requires
        modulus_ok(q),
        a1.len() == a2.len(),
    ensures
        spec_negacyclic_mul(spec_poly_add(a1, a2, q), b, q) == spec_poly_add(
            spec_negacyclic_mul(a1, b, q),
            spec_negacyclic_mul(a2, b, q),
            q,
        ),
{
    let qi = q as int;
    let n = a1.len() as int;
    let asum = spec_poly_add(a1, a2, q);
    let lhs = spec_negacyclic_mul(asum, b, q);
    let rhs = spec_poly_add(spec_negacyclic_mul(a1, b, q), spec_negacyclic_mul(a2, b, q), q);
    assert forall|k: int| 0 <= k < n implies lhs[k] == rhs[k] by {
        lemma_conv_psum_linear(a1, a2, asum, b, n, k, n, q);
        let p_1 = spec_conv_psum(a1, b, n, k, n);
        let p_2 = spec_conv_psum(a2, b, n, k, n);
        lemma_mod_bound(p_1, qi);
        lemma_mod_bound(p_2, qi);
        lemma_add_mod_noop(p_1, p_2, qi);
        assert(rhs[k] as int == (p_1 % qi + p_2 % qi) % qi);
        assert(lhs[k] as int == (p_1 + p_2) % qi);
    }
    assert(lhs =~= rhs);
}

/// An element of R_q: exactly `n` reduced coefficients plus the
/// representation tag under which they are to be read.
pub struct RqPoly {
    pub coeffs: Vec<u64>,
    pub is_ntt_form: bool,
}

impl RqPoly {
    /// Well-formedness against ring dimensions: right length, all
    /// coefficients reduced.
    pub open spec fn wf(&self, n: nat, q: u64) -> bool {
        &&& self.coeffs@.len() == n
        &&& coeffs_reduced(self.coeffs@, q)
    }

    /// Coefficient-wise modular addition in place; both operands must
    /// share a representation.
    pub fn add_inplace(&mut self, other: &RqPoly, q: u64)
        requires
            modulus_ok(q),
            old(self).coeffs@.len() == other.coeffs@.len(),
            coeffs_reduced(old(self).coeffs@, q),
            coeffs_reduced(other.coeffs@, q),
            old(self).is_ntt_form == other.is_ntt_form,
        ensures
            final(self).coeffs@ == spec_poly_add(old(self).coeffs@, other.coeffs@, q),
            final(self).is_ntt_form == old(self).is_ntt_form,
            coeffs_reduced(final(self).coeffs@, q),
    {
        let n = self.coeffs.len();
        for i in 0..n
            invariant
                modulus_ok(q),
                self.coeffs@.len() == n,
                old(self).coeffs@.len() == n,
                other.coeffs@.len() == n,
                coeffs_reduced(other.coeffs@, q),
                self.is_ntt_form == old(self).is_ntt_form,
                forall|j: int|
                    i <= j < n ==> self.coeffs@[j] == old(self).coeffs@[j] && self.coeffs@[j] < q,
                forall|j: int|
                    0 <= j < i ==> self.coeffs@[j] == spec_poly_add(
                        old(self).coeffs@,
                        other.coeffs@,
                        q,
                    )[j] && self.coeffs@[j] < q,
        {
            let v = add_mod(self.coeffs[i], other.coeffs[i], q);
            self.coeffs.set(i, v);
        }
        proof {
            assert(self.coeffs@ =~= spec_poly_add(old(self).coeffs@, other.coeffs@, q));
        }
    }

    /// Coefficient-wise modular subtraction in place; both operands must
    /// share a representation.
    pub fn sub_inplace(&mut self, other: &RqPoly, q: u64)
        requires
            modulus_ok(q),
            old(self).coeffs@.len() == other.coeffs@.len(),
            coeffs_reduced(old(self).coeffs@, q),
            coeffs_reduced(other.coeffs@, q),
            old(self).is_ntt_form == other.is_ntt_form,
        ensures
            final(self).coeffs@ == spec_poly_sub(old(self).coeffs@, other.coeffs@, q),
            final(self).is_ntt_form == old(self).is_ntt_form,
            coeffs_reduced(final(self).coeffs@, q),
    {
        let n = self.coeffs.len();
        for i in 0..n
            invariant
                modulus_ok(q),
                self.coeffs@.len() == n,
                old(self).coeffs@.len() == n,
                other.coeffs@.len() == n,
                coeffs_reduced(other.coeffs@, q),
                self.is_ntt_form == old(self).is_ntt_form,
                forall|j: int|
                    i <= j < n ==> self.coeffs@[j] == old(self).coeffs@[j] && self.coeffs@[j] < q,
                forall|j: int|
                    0 <= j < i ==> self.coeffs@[j] == spec_poly_sub(
                        old(self).coeffs@,
                        other.coeffs@,
                        q,
                    )[j] && self.coeffs@[j] < q,
        {
            let v = sub_mod(self.coeffs[i], other.coeffs[i], q);
            self.coeffs.set(i, v);
        }
        proof {
            assert(self.coeffs@ =~= spec_poly_sub(old(self).coeffs@, other.coeffs@, q));
        }
    }

    /// Coefficient-wise multiplication by a fixed reduced scalar, used by
    /// the inverse transform for its `n^{-1}` scaling pass.
    pub fn mul_scalar_inplace(&mut self, c: u64, q: u64)
        requires
            modulus_ok(q),
            c < q,
            coeffs_reduced(old(self).coeffs@, q),
        ensures
            final(self).coeffs@ == spec_poly_scale(old(self).coeffs@, c, q),
            final(self).is_ntt_form == old(self).is_ntt_form,
            coeffs_reduced(final(self).coeffs@, q),
    {
        let n = self.coeffs.len();
        for i in 0..n
            invariant
                modulus_ok(q),
                c < q,
                self.coeffs@.len() == n,
                old(self).coeffs@.len() == n,
                self.is_ntt_form == old(self).is_ntt_form,
                forall|j: int|
                    i <= j < n ==> self.coeffs@[j] == old(self).coeffs@[j] && self.coeffs@[j] < q,
                forall|j: int|
                    0 <= j < i ==> self.coeffs@[j] == spec_poly_scale(old(self).coeffs@, c, q)[j]
                        && self.coeffs@[j] < q,
        {
            let v = mul_mod(self.coeffs[i], c, q);
            self.coeffs.set(i, v);
        }
        proof {
            assert(self.coeffs@ =~= spec_poly_scale(old(self).coeffs@, c, q));
        }
    }

    /// Schoolbook negacyclic product of two coefficient-form polynomials:
    /// cost O(n^2), valid for any modulus. Coefficient `k` accumulates
    /// `a[i] * b[j]` over `i + j = k (mod n)`, negated whenever the index
    /// sum wraps past `n`.
    pub fn multiply(&self, other: &RqPoly, q: u64) -> (r: RqPoly)
        requires
            modulus_ok(q),
            self.coeffs@.len() == other.coeffs@.len(),
            coeffs_reduced(self.coeffs@, q),
            coeffs_reduced(other.coeffs@, q),
            !self.is_ntt_form,
            !other.is_ntt_form,
        ensures
            r.coeffs@ == spec_negacyclic_mul(self.coeffs@, other.coeffs@, q),
            !r.is_ntt_form,
            coeffs_reduced(r.coeffs@, q),
    {
        let n = self.coeffs.len();
        let ghost aa = self.coeffs@;
        let ghost bb = other.coeffs@;
        let mut out: Vec<u64> = Vec::new();
        for k in 0..n
            invariant
                modulus_ok(q),
                self.coeffs@.len() == n,
                other.coeffs@.len() == n,
                aa == self.coeffs@,
                bb == other.coeffs@,
                coeffs_reduced(aa, q),
                coeffs_reduced(bb, q),
                out@.len() == k,
                forall|j: int|
                    0 <= j < k ==> out@[j] == spec_negacyclic_mul(aa, bb, q)[j] && out@[j] < q,
        {
            let mut acc: u64 = 0;
            proof {
                lemma_mod_bound(0int, q as int);
            }
            for i in 0..n
                invariant
                    modulus_ok(q),
                    k < n,
                    self.coeffs@.len() == n,
                    other.coeffs@.len() == n,
                    aa == self.coeffs@,
                    bb == other.coeffs@,
                    coeffs_reduced(aa, q),
                    coeffs_reduced(bb, q),
                    acc < q,
                    acc == spec_conv_psum(aa, bb, n as int, k as int, i as int) % (q as int),
            {
                let ghost psum = spec_conv_psum(aa, bb, n as int, k as int, i as int);
                if i <= k {
                    let t = mul_mod(self.coeffs[i], other.coeffs[k - i], q);
                    proof {
                        lemma_add_mod_noop(psum, (aa[i as int] as int) * (bb[k - i] as int),
                            q as int);
                        lemma_mod_bound(psum, q as int);
                    }
                    acc = add_mod(acc, t, q);
                } else {
                    let t = mul_mod(self.coeffs[i], other.coeffs[n - (i - k)], q);
                    proof {
                        lemma_sub_mod_noop(psum, (aa[i as int] as int) * (bb[k + n - i] as int),
                            q as int);
                        lemma_mod_bound(psum, q as int);
                    }
                    acc = sub_mod(acc, t, q);
                }
            }
            out.push(acc);
        }
        proof {
            assert(out@ =~= spec_negacyclic_mul(aa, bb, q));
        }
        RqPoly { coeffs: out, is_ntt_form: false }
    }
}

} // verus!
