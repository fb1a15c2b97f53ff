//! The additive-only Fan-Vercauteren scheme over R_q.
//!
//! Plaintexts are byte vectors of length exactly `n` with plaintext
//! modulus `t = 256`; a byte `m` is encoded as the large coefficient
//! `delta * m` with `delta = floor(q / 256)`, so that small noise cannot
//! reach it. A ciphertext is a pair `(c0, c1)` of coefficient-form
//! polynomials whose *phase* `c1 - c0 * s` equals `delta*m` plus
//! accumulated noise; decryption recovers each byte by the rounded
//! descaling `floor((256*x + q/2) / q) mod 256`, which tolerates noise up
//! to `q / 512` in magnitude.
//!
//! Secret and public keys are kept in NTT form whenever the context
//! enables the transform; ciphertexts are always kept in coefficient
//! form, the representation in which `add_inplace`, `add_plain_inplace`
//! and `decrypt` read them.

use vstd::prelude::*;
use vstd::arithmetic::div_mod::{
    lemma_add_mod_noop, lemma_div_multiples_vanish_fancy, lemma_fundamental_div_mod,
    lemma_fundamental_div_mod_converse_mod, lemma_mod_add_multiples_vanish, lemma_mod_bound,
    lemma_small_mod, lemma_sub_mod_noop, lemma_sub_mod_noop_right,
};
use crate::arith::{add_mod, modulus_ok, mul_mod, spec_add_mod, spec_mul_mod};
use crate::ntt::{spec_fwd, spec_ntt_mul, RqPolyContext};
use crate::poly::{
    coeffs_reduced, spec_negacyclic_mul, spec_poly_add, spec_poly_sub, RqPoly,
};
use crate::rng::rng_from_entropy;
use crate::sampling::{
    sample_noise_poly, sample_ternary_poly, sample_ternary_poly_prng, sample_uniform_poly,
    spec_centered, spec_noise_bounded, spec_ternary,
};

verus! {

/// Plaintext type: one byte per coefficient slot.
pub type FVPlaintext = Vec<u8>;

/// Ciphertext type: the pair (c0, c1).
pub type FVCiphertext = (RqPoly, RqPoly);

/// Secret key: a single (ternary, before any transform) polynomial.
pub struct SecretKey(pub RqPoly);

/// The negacyclic product the scheme actually computes: the NTT path
/// when the context enables it, the schoolbook path otherwise. Both
/// encryption and decryption go through this one definition, which is
/// what lets the phase cancellation be proved without any further
/// transform theory.
pub open spec fn spec_product(a: RqPoly, s: RqPoly, ctx: RqPolyContext) -> Seq<u64> {
    if ctx.is_ntt_enabled {
        spec_ntt_mul(a, s, ctx)
    } else {
        spec_negacyclic_mul(a.coeffs@, s.coeffs@, ctx.q)
    }
}

/// `b` with the scaled plaintext folded in: coefficient `i` becomes
/// `(b[i] + delta * m[i]) mod q`.
pub open spec fn spec_delta_add(b: Seq<u64>, m: Seq<u8>, delta: u64, q: u64) -> Seq<u64> {
    Seq::new(
        b.len(),
        |i: int| spec_add_mod(
            b[i] as int,
            spec_mul_mod(m[i] as int, delta as int, q as int),
            q as int,
        ) as u64,
    )
}

/// The rounded descaling of one phase coefficient back to a byte.
pub open spec fn spec_decode_coeff(x: u64, q: u64) -> u8 {
    (((256 * (x as int) + (q as int) / 2) / (q as int)) % 256) as u8
}

/// (Additive only version of) the Fan-Vercauteren homomorphic encryption
/// scheme over the single-word scalar backend.
pub struct FV {
    pub n: usize,
    pub q: u64,
    pub delta: u64,
    pub qdivtwo: u64,
    /// Encryption noise: a centered binomial over this many bit pairs
    /// (standard deviation `sqrt(pairs/2)`, close to the classical 3.2).
    pub stdev_pairs: usize,
    /// Flooding noise for re-randomization: a centered binomial over
    /// `flood_pairs` bit pairs scaled by `flood_scale`.
    pub flood_pairs: usize,
    pub flood_scale: u64,
    pub context: RqPolyContext,
}

impl FV {
    /// Scheme-level well-formedness: the context is sound, the cached
    /// constants agree with `q`, and both noise distributions fit far
    /// inside a modulus word.
    pub open spec fn wf(&self) -> bool {
        &&& self.context.wf()
        &&& self.n == self.context.n
        &&& self.q == self.context.q
        &&& 256 <= self.q
        &&& self.delta == self.q / 256
        &&& self.qdivtwo == self.q / 2
        &&& 1 <= self.stdev_pairs <= 64
        &&& 2 * self.stdev_pairs < 256
        &&& 1 <= self.flood_pairs <= 64
        &&& 1 <= self.flood_scale
        &&& 2 * (self.flood_pairs as int) * (self.flood_scale as int) < self.q as int
    }

    /// A well-formed secret key: right shape, and in NTT form exactly
    /// when the context transforms.
    pub open spec fn sk_wf(&self, sk: SecretKey) -> bool {
        &&& sk.0.wf(self.n as nat, self.q)
        &&& sk.0.is_ntt_form == self.context.is_ntt_enabled
    }

    /// A well-formed ciphertext: both halves the right shape, both in
    /// coefficient form.
    pub open spec fn ct_wf(&self, ct: FVCiphertext) -> bool {
        &&& ct.0.wf(self.n as nat, self.q)
        &&& ct.1.wf(self.n as nat, self.q)
        &&& !ct.0.is_ntt_form
        &&& !ct.1.is_ntt_form
    }

    /// A well-formed public key: both halves the right shape, in NTT form
    /// exactly when the context transforms.
    pub open spec fn pk_wf(&self, pk: FVCiphertext) -> bool {
        &&& pk.0.wf(self.n as nat, self.q)
        &&& pk.1.wf(self.n as nat, self.q)
        &&& pk.0.is_ntt_form == self.context.is_ntt_enabled
        &&& pk.1.is_ntt_form == self.context.is_ntt_enabled
    }

    /// The phase of a ciphertext under a secret key: `c1 - c0 * s`, the
    /// noisy scaled plaintext that decryption descales.
    pub open spec fn spec_phase(&self, ct: FVCiphertext, sk: SecretKey) -> Seq<u64> {
        spec_poly_sub(ct.1.coeffs@, spec_product(ct.0, sk.0, self.context), self.q)
    }

    /// What decryption returns: every phase coefficient descaled.
    pub open spec fn spec_decrypt(&self, ct: FVCiphertext, sk: SecretKey) -> Seq<u8> {
        Seq::new(self.n as nat, |i: int| spec_decode_coeff(self.spec_phase(ct, sk)[i], self.q))
    }

    /// `ct` is a secret-key encryption of `m` under `sk` with noise of
    /// magnitude at most `b`: its second half is exactly
    /// `c0 * s + e + delta*m` for some noise `e` bounded by `b`.
    pub open spec fn spec_sk_encryption_of(
        &self,
        ct: FVCiphertext,
        sk: SecretKey,
        m: Seq<u8>,
        b: int,
    ) -> bool {
        exists|e: Seq<u64>|
            {
                &&& #[trigger] spec_noise_bounded(e, b, self.q)
                &&& e.len() == self.n
                &&& coeffs_reduced(e, self.q)
                &&& ct.1.coeffs@ == spec_delta_add(
                    spec_poly_add(spec_product(ct.0, sk.0, self.context), e, self.q),
                    m,
                    self.delta,
                    self.q,
                )
            }
    }

    /// `ct` is a secret-key encryption of zero under `sk` with noise of
    /// magnitude at most `b`: its second half is its own product with
    /// the key plus bounded noise.
    pub open spec fn spec_sk_zero_encryption_of(
        &self,
        ct: FVCiphertext,
        sk: SecretKey,
        b: int,
    ) -> bool {
        exists|e: Seq<u64>|
            {
                &&& #[trigger] spec_noise_bounded(e, b, self.q)
                &&& e.len() == self.n
                &&& coeffs_reduced(e, self.q)
                &&& ct.1.coeffs@ == spec_poly_add(
                    spec_product(ct.0, sk.0, self.context),
                    e,
                    self.q,
                )
            }
    }

    /// The polynomial is the (possibly forward-transformed) image of a
    /// ternary polynomial: the shape of the secret key and of the mixing
    /// polynomial `u` of public-key encryption.
    pub open spec fn spec_ternary_image(&self, p: RqPoly) -> bool {
        &&& p.wf(self.n as nat, self.q)
        &&& p.is_ntt_form == self.context.is_ntt_enabled
        &&& exists|t: Seq<u64>|
            #[trigger] spec_ternary(t, self.q) && p.coeffs@ == (
            if self.context.is_ntt_enabled {
                spec_fwd(t, self.context.psi_table@, self.q)
            } else {
                t
            })
    }

    /// `c` holds the product `a * u` plus noise of magnitude at most
    /// `b`.
    pub open spec fn spec_noisy_product(&self, c: Seq<u64>, a: RqPoly, u: RqPoly, b: int) -> bool {
        exists|e: Seq<u64>|
            {
                &&& #[trigger] spec_noise_bounded(e, b, self.q)
                &&& e.len() == self.n
                &&& coeffs_reduced(e, self.q)
                &&& c == spec_poly_add(spec_product(a, u, self.context), e, self.q)
            }
    }

    /// `ct` is a public-key encryption of zero under `pk` with noise of
    /// magnitude at most `b`: for some ternary mixing polynomial `u`
    /// (forward-transformed when the context enables the NTT),
    /// `ct.0 = pk.0 * u + e1` and `ct.1 = pk.1 * u + e2` with both noise
    /// polynomials bounded by `b`.
    pub open spec fn spec_pk_zero_encryption_of(
        &self,
        ct: FVCiphertext,
        pk: FVCiphertext,
        b: int,
    ) -> bool {
        exists|u: RqPoly|
            {
                &&& #[trigger] self.spec_ternary_image(u)
                &&& self.spec_noisy_product(ct.0.coeffs@, pk.0, u, b)
                &&& self.spec_noisy_product(ct.1.coeffs@, pk.1, u, b)
            }
    }

    /// `ct` is a public-key encryption of `m` under `pk`: an encryption
    /// of zero with the scaled plaintext folded into its second half.
    pub open spec fn spec_pk_encryption_of(
        &self,
        ct: FVCiphertext,
        pk: FVCiphertext,
        m: Seq<u8>,
        b: int,
    ) -> bool {
        exists|z: FVCiphertext|
            {
                &&& #[trigger] self.spec_pk_zero_encryption_of(z, pk, b)
                &&& self.ct_wf(z)
                &&& ct.0 == z.0
                &&& ct.1.coeffs@ == spec_delta_add(z.1.coeffs@, m, self.delta, self.q)
            }
    }

    /// `pk` is the (possibly forward-transformed) image of a secret-key
    /// encryption of zero under `sk` with noise at most `b`: the binding
    /// `pk = (a, a*s + e)` of key generation.
    pub open spec fn spec_keypair_of(&self, pk: FVCiphertext, sk: SecretKey, b: int) -> bool {
        exists|z: FVCiphertext|
            {
                &&& #[trigger] self.spec_sk_zero_encryption_of(z, sk, b)
                &&& self.ct_wf(z)
                &&& pk.0.coeffs@ == (if self.context.is_ntt_enabled {
                    spec_fwd(z.0.coeffs@, self.context.psi_table@, self.q)
                } else {
                    z.0.coeffs@
                })
                &&& pk.1.coeffs@ == (if self.context.is_ntt_enabled {
                    spec_fwd(z.1.coeffs@, self.context.psi_table@, self.q)
                } else {
                    z.1.coeffs@
                })
            }
    }

    /// `newct` is `oldct` re-randomized under `pk`: a public-key
    /// encryption of zero with noise at most `bmask` was added to both
    /// halves, and a flooding polynomial of magnitude at most `bflood`
    /// was folded into the second half.
    pub open spec fn spec_rerandomized_from(
        &self,
        oldct: FVCiphertext,
        newct: FVCiphertext,
        pk: FVCiphertext,
        bmask: int,
        bflood: int,
    ) -> bool {
        exists|z: FVCiphertext|
            {
                &&& #[trigger] self.spec_pk_zero_encryption_of(z, pk, bmask)
                &&& self.ct_wf(z)
                &&& newct.0.coeffs@ == spec_poly_add(oldct.0.coeffs@, z.0.coeffs@, self.q)
                &&& exists|ef: Seq<u64>|
                    {
                        &&& #[trigger] spec_noise_bounded(ef, bflood, self.q)
                        &&& ef.len() == self.n
                        &&& coeffs_reduced(ef, self.q)
                        &&& newct.1.coeffs@ == spec_poly_add(
                            spec_poly_add(oldct.1.coeffs@, z.1.coeffs@, self.q),
                            ef,
                            self.q,
                        )
                    }
            }
    }

    /// The dispatched negacyclic product; the result is always in
    /// coefficient form.
    fn mul_poly(&self, a: &RqPoly, b: &RqPoly) -> (r: RqPoly)
        requires
            self.wf(),
            a.wf(self.n as nat, self.q),
            b.wf(self.n as nat, self.q),
            !self.context.is_ntt_enabled ==> !a.is_ntt_form && !b.is_ntt_form,
        ensures
            r.coeffs@ == spec_product(*a, *b, self.context),
            !r.is_ntt_form,
            r.wf(self.n as nat, self.q),
    {
        if self.context.is_ntt_enabled {
            a.multiply_fast(b, &self.context)
        } else {
            a.multiply(b, self.q)
        }
    }

    /// Folds `delta * pt` into a coefficient-form polynomial in place.
    #[verifier::loop_isolation(false)]
    #[verifier::rlimit(60)]
    #[verifier::spinoff_prover]
    fn delta_add_inplace(&self, p: &mut RqPoly, pt: &FVPlaintext)
        requires
            self.wf(),
            old(p).wf(self.n as nat, self.q),
            pt@.len() == self.n,
        ensures
            final(p).coeffs@ == spec_delta_add(old(p).coeffs@, pt@, self.delta, self.q),
            final(p).is_ntt_form == old(p).is_ntt_form,
            final(p).wf(self.n as nat, self.q),
    {
        let n = p.coeffs.len();
        let q = self.q;
        proof {
            assert(self.q / 256 < self.q) by (nonlinear_arith)
                requires
                    256 <= self.q,
            ;
        }
        let ghost orig = p.coeffs@;
        let ghost goal = spec_delta_add(orig, pt@, self.delta, self.q);
        for i in 0..n
            invariant
                modulus_ok(q),
                256 <= q,
                self.delta < q,
                q == self.q,
                self.delta == self.q / 256,
                goal == spec_delta_add(orig, pt@, self.delta, self.q),
                p.coeffs@.len() == n,
                orig.len() == n,
                coeffs_reduced(orig, q),
                pt@.len() == n,
                p.is_ntt_form == old(p).is_ntt_form,
                forall|j: int| i <= j < n ==> p.coeffs@[j] == orig[j],
                forall|j: int| 0 <= j < i ==> p.coeffs@[j] == goal[j] && p.coeffs@[j] < q,
        {
            proof {
                assert(p.coeffs@[i as int] == orig[i as int]);
                assert(p.coeffs@[i as int] < q);
            }
            let scaled = mul_mod(pt[i] as u64, self.delta, q);
            let v = add_mod(p.coeffs[i], scaled, q);
            p.coeffs.set(i, v);
            proof {
                assert(p.coeffs@[i as int] == goal[i as int]);
                assert forall|j: int|
                    0 <= j < i + 1 implies p.coeffs@[j] == goal[j] && p.coeffs@[j] < q by {
                    assert(goal[j] == spec_add_mod(
                        orig[j] as int,
                        spec_mul_mod(pt@[j] as int, self.delta as int, self.q as int),
                        self.q as int,
                    ) as u64);
                }
            }
        }
        proof {
            assert(p.coeffs@ =~= goal);
        }
    }

    /// Homomorphic addition: both halves added coefficient-wise, so the
    /// phases — and with them the encoded plaintexts, noise permitting —
    /// add as well.
    pub fn add_inplace(&self, ct1: &mut FVCiphertext, ct2: &FVCiphertext)
        requires
            self.wf(),
            self.ct_wf(*old(ct1)),
            self.ct_wf(*ct2),
        ensures
            final(ct1).0.coeffs@ == spec_poly_add(old(ct1).0.coeffs@, ct2.0.coeffs@, self.q),
            final(ct1).1.coeffs@ == spec_poly_add(old(ct1).1.coeffs@, ct2.1.coeffs@, self.q),
            self.ct_wf(*final(ct1)),
    {
        ct1.0.add_inplace(&ct2.0, self.q);
        ct1.1.add_inplace(&ct2.1, self.q);
    }

    /// Plaintext injection: `delta * pt` is folded into `c1`
    /// coefficient-wise, in coefficient form, which shifts the phase by
    /// exactly the encoding of `pt`.
    pub fn add_plain_inplace(&self, ct: &mut FVCiphertext, pt: &FVPlaintext)
        requires
            self.wf(),
            self.ct_wf(*old(ct)),
            pt@.len() == self.n,
        ensures
            final(ct).0 == old(ct).0,
            final(ct).1.coeffs@ == spec_delta_add(old(ct).1.coeffs@, pt@, self.delta, self.q),
            self.ct_wf(*final(ct)),
    {
        self.delta_add_inplace(&mut ct.1, pt);
    }

    /// Key generation: a ternary polynomial, forward-transformed when the
    /// context enables the NTT.
    pub fn generate_key(&self) -> (sk: SecretKey)
        requires
            self.wf(),
        ensures
            self.sk_wf(sk),
            self.spec_ternary_image(sk.0),
    {
        let mut skpoly = sample_ternary_poly(&self.context);
        let ghost t = skpoly.coeffs@;
        if self.context.is_ntt_enabled {
            skpoly.forward_transform(&self.context);
        }
        proof {
            assert(spec_ternary(t, self.q));
        }
        SecretKey(skpoly)
    }

    /// Secret-key encryption of zero: `(a, a*s + e)` with `a` uniform and
    /// `e` small noise. The returned pair is in coefficient form, and its
    /// second half provably carries noise at most `stdev_pairs` over the
    /// product.
    pub fn encrypt_zero_sk(&self, sk: &SecretKey) -> (ct: FVCiphertext)
        requires
            self.wf(),
            self.sk_wf(*sk),
        ensures
            self.ct_wf(ct),
            self.spec_sk_zero_encryption_of(ct, *sk, self.stdev_pairs as int),
    {
        let mut rng = rng_from_entropy();
        let e = sample_noise_poly(&self.context, self.stdev_pairs, 1, &mut rng);
        let a = sample_uniform_poly(&self.context, &mut rng);
        let mut b = self.mul_poly(&a, &sk.0);
        b.add_inplace(&e, self.q);
        proof {
            assert((self.stdev_pairs as int) * 1 == self.stdev_pairs as int);
            assert(spec_noise_bounded(e.coeffs@, self.stdev_pairs as int, self.q));
        }
        (a, b)
    }

    /// Secret-key encryption: `(a, a*s + e + delta*m)` with `a` uniform
    /// and `e` small noise, in coefficient form.
    pub fn encrypt_sk(&self, pt: &FVPlaintext, sk: &SecretKey) -> (ct: FVCiphertext)
        requires
            self.wf(),
            self.sk_wf(*sk),
            pt@.len() == self.n,
        ensures
            self.ct_wf(ct),
            self.spec_sk_encryption_of(ct, *sk, pt@, self.stdev_pairs as int),
    {
        let (a, mut b) = self.encrypt_zero_sk(sk);
        let ghost e = choose|e: Seq<u64>|
            {
                &&& #[trigger] spec_noise_bounded(e, self.stdev_pairs as int, self.q)
                &&& e.len() == self.n
                &&& coeffs_reduced(e, self.q)
                &&& b.coeffs@ == spec_poly_add(spec_product(a, sk.0, self.context), e, self.q)
            };
        self.delta_add_inplace(&mut b, pt);
        proof {
            assert(spec_noise_bounded(e, self.stdev_pairs as int, self.q));
            assert(b.coeffs@ == spec_delta_add(
                spec_poly_add(spec_product(a, sk.0, self.context), e, self.q),
                pt@,
                self.delta,
                self.q,
            ));
        }
        (a, b)
    }

    /// Key generation: the secret key with the public key
    /// `(a, a*s + e)`, both forward-transformed when the context enables
    /// the NTT.
    pub fn generate_keypair(&self) -> (r: (FVCiphertext, SecretKey))
        requires
            self.wf(),
        ensures
            self.pk_wf(r.0),
            self.sk_wf(r.1),
            self.spec_ternary_image(r.1.0),
            self.spec_keypair_of(r.0, r.1, self.stdev_pairs as int),
    {
        let sk = self.generate_key();
        let mut pk = self.encrypt_zero_sk(&sk);
        let ghost z = pk;
        if self.context.is_ntt_enabled {
            pk.0.forward_transform(&self.context);
            pk.1.forward_transform(&self.context);
        }
        proof {
            assert(self.spec_sk_zero_encryption_of(z, sk, self.stdev_pairs as int));
            assert(self.spec_keypair_of(pk, sk, self.stdev_pairs as int));
        }
        (pk, sk)
    }

    /// Public-key encryption of zero: `(a*u + e1, b*u + e2)` for the
    /// public key `(a, b)`, a fresh ternary `u` and fresh small noise.
    /// The result is in coefficient form.
    pub fn encrypt_zero(&self, pk: &FVCiphertext) -> (ct: FVCiphertext)
        requires
            self.wf(),
            self.pk_wf(*pk),
        ensures
            self.ct_wf(ct),
            self.spec_pk_zero_encryption_of(ct, *pk, self.stdev_pairs as int),
    {
        let mut rng = rng_from_entropy();
        let mut u = sample_ternary_poly_prng(&self.context, &mut rng);
        let e1 = sample_noise_poly(&self.context, self.stdev_pairs, 1, &mut rng);
        let e2 = sample_noise_poly(&self.context, self.stdev_pairs, 1, &mut rng);
        let ghost t = u.coeffs@;
        if self.context.is_ntt_enabled {
            u.forward_transform(&self.context);
        }
        let mut c0 = self.mul_poly(&pk.0, &u);
        c0.add_inplace(&e1, self.q);
        let mut c1 = self.mul_poly(&pk.1, &u);
        c1.add_inplace(&e2, self.q);
        proof {
            let b = self.stdev_pairs as int;
            assert(b * 1 == b);
            assert(spec_ternary(t, self.q));
            assert(self.spec_ternary_image(u));
            assert(spec_noise_bounded(e1.coeffs@, b, self.q));
            assert(self.spec_noisy_product(c0.coeffs@, pk.0, u, b));
            assert(spec_noise_bounded(e2.coeffs@, b, self.q));
            assert(self.spec_noisy_product(c1.coeffs@, pk.1, u, b));
            assert(self.spec_pk_zero_encryption_of((c0, c1), *pk, b));
        }
        (c0, c1)
    }

    /// Public-key encryption: an encryption of zero with `delta * pt`
    /// folded into its second half, in coefficient form.
    pub fn encrypt(&self, pt: &FVPlaintext, pk: &FVCiphertext) -> (ct: FVCiphertext)
        requires
            self.wf(),
            self.pk_wf(*pk),
            pt@.len() == self.n,
        ensures
            self.ct_wf(ct),
            self.spec_pk_encryption_of(ct, *pk, pt@, self.stdev_pairs as int),
    {
        let (c0, mut c1) = self.encrypt_zero(pk);
        let ghost z: FVCiphertext = (c0, c1);
        self.delta_add_inplace(&mut c1, pt);
        proof {
            let b = self.stdev_pairs as int;
            assert(self.spec_pk_zero_encryption_of(z, *pk, b));
            assert(self.spec_pk_encryption_of((c0, c1), *pk, pt@, b));
        }
        (c0, c1)
    }

    /// Re-randomization by noise flooding: a fresh public-key encryption
    /// of zero is added to the ciphertext, and a large flooding noise
    /// polynomial is added to its second half. The plaintext is
    /// preserved as long as the accumulated noise stays under `q/512`.
    pub fn rerandomize(&self, ct: &mut FVCiphertext, pk: &FVCiphertext)
        requires
            self.wf(),
            self.ct_wf(*old(ct)),
            self.pk_wf(*pk),
        ensures
            self.ct_wf(*final(ct)),
            self.spec_rerandomized_from(
                *old(ct),
                *final(ct),
                *pk,
                self.stdev_pairs as int,
                (self.flood_pairs as int) * (self.flood_scale as int),
            ),
    {
        let c_mask = self.encrypt_zero(pk);
        self.add_inplace(ct, &c_mask);
        let mut rng = rng_from_entropy();
        let elarge = sample_noise_poly(&self.context, self.flood_pairs, self.flood_scale,
            &mut rng);
        ct.1.add_inplace(&elarge, self.q);
        proof {
            let bf = (self.flood_pairs as int) * (self.flood_scale as int);
            assert(spec_noise_bounded(elarge.coeffs@, bf, self.q));
            assert(self.spec_pk_zero_encryption_of(c_mask, *pk, self.stdev_pairs as int));
            assert(self.spec_rerandomized_from(*old(ct), *ct, *pk, self.stdev_pairs as int, bf));
        }
    }

    /// A scheme over dimension `n` and modulus `q`, with the classical
    /// encryption noise (standard deviation near 3.2); NTT
    /// multiplication is used whenever the modulus supports it.
    ///
    /// The flooding noise here has standard deviation 1, not the 2^40 of
    /// the default parameter set: a flooding term of that size only fits
    /// inside the 54-bit default modulus, not an arbitrary small `q`.
    /// Re-randomization under a small modulus therefore refreshes the
    /// mask but floods very little; `default_2048` carries the full
    /// flooding noise.
    pub fn new(n: usize, q: u64) -> (r: FV)
        requires
            1 <= n <= 0x0010_0000,
            256 <= q < 0x8000_0000_0000_0000u64,
        ensures
            r.wf(),
            r.n == n,
            r.q == q,
            r.stdev_pairs == 20,
            r.flood_pairs == 2,
            r.flood_scale == 1,
            r.context.is_ntt_enabled ==> (q as int) % (2 * (n as int)) == 1,
    {
        let context = RqPolyContext::new(n, q);
        proof {
            assert(2 * 2 * 1 < 256int);
        }
        FV {
            n,
            q,
            delta: q / 256,
            qdivtwo: q / 2,
            stdev_pairs: 20,
            flood_pairs: 2,
            flood_scale: 1,
            context,
        }
    }

    /// The default parameter set: n = 2048 and the 54-bit NTT-friendly
    /// prime q = 18014398492704769 (q == 1 mod 4096), with flooding noise
    /// of standard deviation 2^40 (a centered binomial over 8 bit pairs
    /// scaled by 2^39).
    pub fn default_2048() -> (r: FV)
        requires
            true,
        ensures
            r.wf(),
            r.n == 2048,
            r.q == 18014398492704769u64,
            r.stdev_pairs == 20,
            r.flood_pairs == 8,
            r.flood_scale == 0x80_0000_0000u64,
            r.context.is_ntt_enabled ==> (r.q as int) % 4096 == 1,
    {
        let q: u64 = 18014398492704769;
        let context = RqPolyContext::new(2048, q);
        proof {
            assert(2 * (8int) * (0x80_0000_0000int) < 18014398492704769int);
        }
        FV {
            n: 2048,
            q,
            delta: q / 256,
            qdivtwo: q / 2,
            stdev_pairs: 20,
            flood_pairs: 8,
            flood_scale: 0x80_0000_0000,
            context,
        }
    }

    /// Decryption: the phase `c1 - c0 * s` is computed in coefficient
    /// form and every coefficient is descaled by the rounded division.
    /// The result is pinned exactly: byte `i` is
    /// `floor((256 * phase[i] + floor(q/2)) / q) mod 256`.
    pub fn decrypt(&self, ct: &FVCiphertext, sk: &SecretKey) -> (r: FVPlaintext)
        requires
            self.wf(),
            self.ct_wf(*ct),
            self.sk_wf(*sk),
        ensures
            r@.len() == self.n,
            forall|i: int| 0 <= i < self.n ==> r@[i] == self.spec_decrypt(*ct, *sk)[i],
    {
        let temp1 = self.mul_poly(&ct.0, &sk.0);
        let mut phase = RqPoly {
            coeffs: crate::ntt::clone_coeffs(&ct.1.coeffs),
            is_ntt_form: ct.1.is_ntt_form,
        };
        phase.sub_inplace(&temp1, self.q);
        let ghost ph = self.spec_phase(*ct, *sk);
        proof {
            assert(phase.coeffs@ == ph);
        }
        let n = self.n;
        let q = self.q;
        let mut out: Vec<u8> = Vec::new();
        for i in 0..n
            invariant
                modulus_ok(q),
                q == self.q,
                256 <= q,
                self.qdivtwo == q / 2,
                phase.coeffs@.len() == n,
                coeffs_reduced(phase.coeffs@, q),
                phase.coeffs@ == ph,
                out@.len() == i,
                forall|j: int| 0 <= j < i ==> out@[j] == spec_decode_coeff(ph[j], q),
        {
            let x = phase.coeffs[i];
            let wide: u128 = 256u128 * (x as u128) + (self.qdivtwo as u128);
            let byte: u128 = (wide / (q as u128)) % 256;
            out.push(byte as u8);
        }
        out
    }
}

/// The heart of decryption correctness: for a byte `m` and signed noise
/// `e` of magnitude at most `b`, with `b` below `q/256` and the total
/// rounding slack under `q/2`, the rounded descaling of
/// `(floor(q/256)*m + e) mod q` returns exactly `m`.
pub proof fn lemma_decode_exact(m: int, e: int, b: int, q: int)
    requires
        0 <= m < 256,
        256 <= q,
        -b <= e <= b,
        0 <= b,
        b < q / 256,
        256 * b + 255 * (q % 256) < q / 2,
    ensures
        (256 * (((q / 256) * m + e) % q) + q / 2) / q % 256 == m,
{
    let d = q / 256;
    let rho = q % 256;
    lemma_fundamental_div_mod(q, 256);
    lemma_mod_bound(q, 256);
    assert(q == 256 * d + rho);
    let v = d * m + e;
    assert(d * m >= 0 && d * m <= 255 * d && (m >= 1 ==> d * m >= d)) by (nonlinear_arith)
        requires
            0 <= m < 256,
            d >= 1,
    ;
    assert(d >= 1);
    if v >= 0 {
        assert(v < q) by (nonlinear_arith)
            requires
                v == d * m + e,
                d * m <= 255 * d,
                e <= b,
                b < d,
                q == 256 * d + rho,
                rho >= 0,
        ;
        lemma_small_mod(v as nat, q as nat);
        assert(((d * m + e) % q) == v);
        let w = 256 * e - rho * m + q / 2;
        assert(256 * v + q / 2 == q * m + w) by (nonlinear_arith)
            requires
                v == d * m + e,
                q == 256 * d + rho,
                w == 256 * e - rho * m + q / 2,
        ;
        assert(rho * m >= 0 && rho * m <= 255 * rho) by (nonlinear_arith)
            requires
                0 <= m < 256,
                rho >= 0,
        ;
        assert(0 <= w < q);
        lemma_div_multiples_vanish_fancy(m, w, q);
        assert((q * m + w) / q == m);
        lemma_small_mod(m as nat, 256nat);
    } else {
        assert(m == 0);
        assert(v == e);
        assert(0 <= v + q < q);
        lemma_fundamental_div_mod_converse_mod(v, q, -1, v + q);
        assert((v % q) == q + e);
        let w = 256 * e + q / 2;
        assert(256 * (q + e) + q / 2 == q * 256 + w) by (nonlinear_arith)
            requires
                w == 256 * e + q / 2,
        ;
        assert(0 <= w < q);
        lemma_div_multiples_vanish_fancy(256, w, q);
        assert((q * 256 + w) / q == 256);
        assert(256int % 256int == 0);
    }
}

/// Decryption correctness for secret-key encryptions: whenever `ct` is a
/// secret-key encryption of `m` under `sk` with noise bounded by `b`,
/// and the modulus leaves the usual rounding slack over that bound,
/// decryption returns exactly `m`. The phase cancellation needs no
/// transform theory: encryption and decryption evaluate the very same
/// product `c0 * s`, so only the noise and the encoding remain.
pub proof fn lemma_sk_decryption_correct(
    fv: FV,
    ct: FVCiphertext,
    sk: SecretKey,
    m: Seq<u8>,
    b: int,
)
    requires
        fv.wf(),
        fv.ct_wf(ct),
        fv.sk_wf(sk),
        m.len() == fv.n,
        fv.spec_sk_encryption_of(ct, sk, m, b),
        0 <= b,
        b < fv.q as int / 256,
        256 * b + 255 * ((fv.q as int) % 256) < (fv.q as int) / 2,
    ensures
        fv.spec_decrypt(ct, sk) == m,
{
    let q = fv.q as int;
    let n = fv.n as int;
    let d = fv.delta as int;
    let p = spec_product(ct.0, sk.0, fv.context);
    let e = choose|e: Seq<u64>|
        {
            &&& #[trigger] spec_noise_bounded(e, b, fv.q)
            &&& e.len() == fv.n
            &&& coeffs_reduced(e, fv.q)
            &&& ct.1.coeffs@ == spec_delta_add(
                spec_poly_add(p, e, fv.q),
                m,
                fv.delta,
                fv.q,
            )
        };
    let ph = fv.spec_phase(ct, sk);
    let dec = fv.spec_decrypt(ct, sk);
    assert forall|i: int| 0 <= i < n implies dec[i] == m[i] by {
        let pi = p[i] as int;
        let ei = e[i] as int;
        let mi = m[i] as int;
        let c1i = ct.1.coeffs@[i] as int;
        lemma_mod_bound(pi + ei, q);
        lemma_mod_bound(mi * d, q);
        assert(c1i == ((pi + ei) % q + (mi * d) % q) % q);
        // fold the three mods into one sum mod q
        lemma_add_mod_noop(pi + ei, mi * d, q);
        assert(c1i == (pi + ei + mi * d) % q);
        // subtracting the product leaves noise plus encoding
        lemma_sub_mod_noop_right(c1i, pi, q);
        lemma_mod_bound(c1i - pi, q);
        assert(ph[i] as int == (c1i - pi) % q);
        assert((c1i - pi) % q == ((pi + ei + mi * d) % q - pi) % q);
        lemma_sub_mod_noop(pi + ei + mi * d, pi, q);
        lemma_mod_bound(pi, q);
        lemma_small_mod(p[i] as nat, fv.q as nat);
        assert(((pi + ei + mi * d) % q - pi % q) % q == (ei + mi * d) % q);
        assert(ph[i] as int == (ei + mi * d) % q);
        // the stored noise word stands for a signed value within b
        let es = spec_centered(e[i], fv.q);
        assert(-b <= es <= b);
        assert((ei + mi * d) % q == (d * mi + es) % q) by {
            assert(mi * d == d * mi) by (nonlinear_arith);
            if 2 * ei < q {
                assert(es == ei);
            } else {
                assert(es == ei - q);
                lemma_mod_add_multiples_vanish(d * mi + es, q);
                assert(ei + mi * d == q + (d * mi + es));
            }
        }
        lemma_decode_exact(mi, es, b, q);
        assert(d == q / 256);
        assert(dec[i] == spec_decode_coeff(ph[i], fv.q));
        assert(dec[i] as int == ((256 * ((d * mi + es) % q) + q / 2) / q) % 256);
    }
    assert(dec =~= m);
}

/// Plaintext injection correctness: if `ct` is a secret-key encryption
/// of `m1` and `ct2` is `ct` with `m2` folded in — exactly what
/// `add_plain_inplace` produces — then `ct2` decrypts to the byte-wise
/// sum `m1 + m2`, provided no byte overflows and the noise leaves the
/// usual rounding slack.
pub proof fn lemma_add_plain_correct(
    fv: FV,
    ct: FVCiphertext,
    ct2: FVCiphertext,
    sk: SecretKey,
    m1: Seq<u8>,
    m2: Seq<u8>,
    sum: Seq<u8>,
    b: int,
)
    requires
        fv.wf(),
        fv.ct_wf(ct),
        fv.ct_wf(ct2),
        fv.sk_wf(sk),
        m1.len() == fv.n,
        m2.len() == fv.n,
        sum.len() == fv.n,
        forall|i: int|
            0 <= i < fv.n ==> m1[i] + m2[i] < 256 && #[trigger] sum[i] == m1[i] + m2[i],
        fv.spec_sk_encryption_of(ct, sk, m1, b),
        ct2.0 == ct.0,
        ct2.1.coeffs@ == spec_delta_add(ct.1.coeffs@, m2, fv.delta, fv.q),
        0 <= b,
        b < fv.q as int / 256,
        256 * b + 255 * ((fv.q as int) % 256) < (fv.q as int) / 2,
    ensures
        fv.spec_decrypt(ct2, sk) == sum,
{
    let p = spec_product(ct.0, sk.0, fv.context);
    let e = choose|e: Seq<u64>|
        {
            &&& #[trigger] spec_noise_bounded(e, b, fv.q)
            &&& e.len() == fv.n
            &&& coeffs_reduced(e, fv.q)
            &&& ct.1.coeffs@ == spec_delta_add(
                spec_poly_add(p, e, fv.q),
                m1,
                fv.delta,
                fv.q,
            )
        };
    let base = spec_poly_add(p, e, fv.q);
    assert(coeffs_reduced(base, fv.q)) by {
        assert forall|i: int| 0 <= i < base.len() implies base[i] < fv.q by {
            lemma_mod_bound(p[i] + e[i], fv.q as int);
        }
    }
    assert(base.len() == fv.n) by {
        lemma_product_len(fv, ct.0, sk.0);
    }
    let qi = fv.q as int;
    let d = fv.delta as int;
    let dsum = spec_delta_add(base, sum, fv.delta, fv.q);
    assert forall|i: int| 0 <= i < fv.n implies ct2.1.coeffs@[i] == dsum[i] by {
        let xi = base[i] as int;
        let a1 = (m1[i] as int) * d;
        let a2 = (m2[i] as int) * d;
        let a3 = (sum[i] as int) * d;
        assert(a3 == a1 + a2) by (nonlinear_arith)
            requires
                sum[i] == m1[i] + m2[i],
                a1 == (m1[i] as int) * d,
                a2 == (m2[i] as int) * d,
                a3 == (sum[i] as int) * d,
        ;
        assert(base[i] < fv.q) by {
            lemma_mod_bound(p[i] + e[i], qi);
        }
        lemma_small_mod(base[i] as nat, fv.q as nat);
        lemma_add_mod_noop(xi, a1, qi);
        lemma_mod_bound(xi + a1, qi);
        lemma_add_mod_noop(xi + a1, a2, qi);
        lemma_add_mod_noop(xi, a3, qi);
        lemma_mod_bound(a1, qi);
        lemma_mod_bound(a2, qi);
        lemma_mod_bound(a3, qi);
        assert(ct.1.coeffs@[i] as int == (xi % qi + a1 % qi) % qi);
        assert(ct2.1.coeffs@[i] as int == ((ct.1.coeffs@[i] as int) % qi + a2 % qi) % qi) by {
            lemma_small_mod(ct.1.coeffs@[i] as nat, fv.q as nat);
        }
        assert(ct2.1.coeffs@[i] as int == ((xi + a1) % qi + a2 % qi) % qi) by {
            lemma_mod_bound(xi + a1, qi);
            lemma_small_mod(((xi + a1) % qi) as nat, fv.q as nat);
        }
        assert(dsum[i] as int == (xi % qi + a3 % qi) % qi);
    }
    assert(ct2.1.coeffs@ =~= dsum);
    assert(ct2.1.coeffs@ == spec_delta_add(base, sum, fv.delta, fv.q));
    assert(spec_product(ct2.0, sk.0, fv.context) == p);
    assert(fv.spec_sk_encryption_of(ct2, sk, sum, b)) by {
        assert(spec_noise_bounded(e, b, fv.q) && e.len() == fv.n && coeffs_reduced(e, fv.q)
            && ct2.1.coeffs@ == spec_delta_add(
            spec_poly_add(spec_product(ct2.0, sk.0, fv.context), e, fv.q),
            sum,
            fv.delta,
            fv.q,
        ));
    }
    lemma_sk_decryption_correct(fv, ct2, sk, sum, b);
}

/// The dispatched product distributes over coefficient-wise addition in
/// its first operand, on either multiplication path.
proof fn lemma_product_linear(fv: FV, a1: RqPoly, a2: RqPoly, asum: RqPoly, sk: SecretKey)
    requires
        fv.wf(),
        a1.wf(fv.n as nat, fv.q),
        a2.wf(fv.n as nat, fv.q),
        asum.wf(fv.n as nat, fv.q),
        !a1.is_ntt_form,
        !a2.is_ntt_form,
        !asum.is_ntt_form,
        fv.sk_wf(sk),
        asum.coeffs@ == spec_poly_add(a1.coeffs@, a2.coeffs@, fv.q),
    ensures
        spec_product(asum, sk.0, fv.context) == spec_poly_add(
            spec_product(a1, sk.0, fv.context),
            spec_product(a2, sk.0, fv.context),
            fv.q,
        ),
{
    if fv.context.is_ntt_enabled {
        crate::ntt::lemma_ntt_mul_linear(a1, a2, asum, sk.0, fv.context);
    } else {
        crate::poly::lemma_negacyclic_mul_linear(a1.coeffs@, a2.coeffs@, sk.0.coeffs@, fv.q);
    }
}

/// Additive homomorphism: the coefficient-wise sum of a secret-key
/// encryption of `m1` and one of `m2` — exactly what `add_inplace`
/// produces — decrypts to the byte-wise sum `m1 + m2`, provided no byte
/// overflows and the two noise bounds together leave the usual rounding
/// slack.
pub proof fn lemma_add_ciphertexts_correct(
    fv: FV,
    ct1: FVCiphertext,
    ct2: FVCiphertext,
    ctsum: FVCiphertext,
    sk: SecretKey,
    m1: Seq<u8>,
    m2: Seq<u8>,
    sum: Seq<u8>,
    b1: int,
    b2: int,
)
    requires
        fv.wf(),
        fv.ct_wf(ct1),
        fv.ct_wf(ct2),
        fv.ct_wf(ctsum),
        fv.sk_wf(sk),
        m1.len() == fv.n,
        m2.len() == fv.n,
        sum.len() == fv.n,
        forall|i: int|
            0 <= i < fv.n ==> m1[i] + m2[i] < 256 && #[trigger] sum[i] == m1[i] + m2[i],
        fv.spec_sk_encryption_of(ct1, sk, m1, b1),
        fv.spec_sk_encryption_of(ct2, sk, m2, b2),
        ctsum.0.coeffs@ == spec_poly_add(ct1.0.coeffs@, ct2.0.coeffs@, fv.q),
        ctsum.1.coeffs@ == spec_poly_add(ct1.1.coeffs@, ct2.1.coeffs@, fv.q),
        0 <= b1,
        0 <= b2,
        b1 + b2 < fv.q as int / 256,
        256 * (b1 + b2) + 255 * ((fv.q as int) % 256) < (fv.q as int) / 2,
    ensures
        fv.spec_decrypt(ctsum, sk) == sum,
{
    let q = fv.q;
    let qi = q as int;
    let d = fv.delta as int;
    let n = fv.n as int;
    let p1s = spec_product(ct1.0, sk.0, fv.context);
    let p2s = spec_product(ct2.0, sk.0, fv.context);
    let e1 = choose|e: Seq<u64>|
        {
            &&& #[trigger] spec_noise_bounded(e, b1, fv.q)
            &&& e.len() == fv.n
            &&& coeffs_reduced(e, fv.q)
            &&& ct1.1.coeffs@ == spec_delta_add(
                spec_poly_add(p1s, e, fv.q),
                m1,
                fv.delta,
                fv.q,
            )
        };
    let e2 = choose|e: Seq<u64>|
        {
            &&& #[trigger] spec_noise_bounded(e, b2, fv.q)
            &&& e.len() == fv.n
            &&& coeffs_reduced(e, fv.q)
            &&& ct2.1.coeffs@ == spec_delta_add(
                spec_poly_add(p2s, e, fv.q),
                m2,
                fv.delta,
                fv.q,
            )
        };
    lemma_product_len(fv, ct1.0, sk.0);
    lemma_product_len(fv, ct2.0, sk.0);
    lemma_product_linear(fv, ct1.0, ct2.0, ctsum.0, sk);
    let psum = spec_product(ctsum.0, sk.0, fv.context);
    assert(2 * (b1 + b2) < qi) by {
        lemma_mod_bound(qi, 256);
        assert(256 * (b1 + b2) < qi / 2);
    }
    lemma_noise_sum(e1, e2, b1, b2, q);
    let esum = spec_poly_add(e1, e2, q);
    // the summed second halves carry the summed products, noise and
    // encodings
    let base = spec_poly_add(psum, esum, q);
    let goal = spec_delta_add(base, sum, fv.delta, q);
    assert forall|i: int| 0 <= i < n implies ctsum.1.coeffs@[i] == goal[i] by {
        let vp1 = p1s[i] as int;
        let vp2 = p2s[i] as int;
        let ve1 = e1[i] as int;
        let ve2 = e2[i] as int;
        let vm1 = (m1[i] as int) * d;
        let vm2 = (m2[i] as int) * d;
        let vms = (sum[i] as int) * d;
        assert(vms == vm1 + vm2) by (nonlinear_arith)
            requires
                sum[i] == m1[i] + m2[i],
                vm1 == (m1[i] as int) * d,
                vm2 == (m2[i] as int) * d,
                vms == (sum[i] as int) * d,
        ;
        lemma_mod_bound(vp1 + ve1, qi);
        lemma_mod_bound(vp2 + ve2, qi);
        lemma_add_mod_noop(vp1 + ve1, vm1, qi);
        lemma_add_mod_noop(vp2 + ve2, vm2, qi);
        assert(ct1.1.coeffs@[i] as int == (vp1 + ve1 + vm1) % qi);
        assert(ct2.1.coeffs@[i] as int == (vp2 + ve2 + vm2) % qi);
        lemma_add_mod_noop(vp1 + ve1 + vm1, vp2 + ve2 + vm2, qi);
        assert(ctsum.1.coeffs@[i] as int == (vp1 + ve1 + vm1 + (vp2 + ve2 + vm2)) % qi);
        lemma_add_mod_noop(vp1 + vp2, ve1 + ve2, qi);
        assert(base[i] as int == (vp1 + vp2 + (ve1 + ve2)) % qi);
        lemma_mod_bound(vp1 + vp2 + (ve1 + ve2), qi);
        lemma_add_mod_noop(vp1 + vp2 + (ve1 + ve2), vms, qi);
        assert(goal[i] as int == (vp1 + vp2 + (ve1 + ve2) + vms) % qi);
    }
    assert(ctsum.1.coeffs@ =~= goal);
    assert(fv.spec_sk_encryption_of(ctsum, sk, sum, b1 + b2)) by {
        assert(spec_noise_bounded(esum, b1 + b2, fv.q) && esum.len() == fv.n && coeffs_reduced(
            esum,
            fv.q,
        ) && ctsum.1.coeffs@ == spec_delta_add(
            spec_poly_add(spec_product(ctsum.0, sk.0, fv.context), esum, fv.q),
            sum,
            fv.delta,
            fv.q,
        ));
    }
    lemma_sk_decryption_correct(fv, ctsum, sk, sum, b1 + b2);
}

/// Coefficient-wise addition of noise words adds the signed values they
/// stand for, so magnitude bounds add as well.
proof fn lemma_noise_sum(e1: Seq<u64>, e2: Seq<u64>, b1: int, b2: int, q: u64)
    requires
        modulus_ok(q),
        e1.len() == e2.len(),
        coeffs_reduced(e1, q),
        coeffs_reduced(e2, q),
        spec_noise_bounded(e1, b1, q),
        spec_noise_bounded(e2, b2, q),
        0 <= b1,
        0 <= b2,
        2 * (b1 + b2) < q,
    ensures
        spec_noise_bounded(spec_poly_add(e1, e2, q), b1 + b2, q),
        coeffs_reduced(spec_poly_add(e1, e2, q), q),
{
    let qi = q as int;
    let esum = spec_poly_add(e1, e2, q);
    assert forall|i: int|
        0 <= i < esum.len() implies -(b1 + b2) <= spec_centered(#[trigger] esum[i], q) <= b1
        + b2 by {
        let c1 = spec_centered(e1[i], q);
        let c2 = spec_centered(e2[i], q);
        let c = c1 + c2;
        assert(-b1 <= c1 <= b1);
        assert(-b2 <= c2 <= b2);
        let x1 = e1[i] as int;
        let x2 = e2[i] as int;
        assert(x1 == c1 || x1 == c1 + qi);
        assert(x2 == c2 || x2 == c2 + qi);
        if c >= 0 {
            lemma_small_mod(c as nat, q as nat);
            lemma_mod_add_multiples_vanish(c, qi);
            lemma_mod_add_multiples_vanish(c + qi, qi);
            assert(esum[i] as int == c);
        } else {
            lemma_small_mod((c + qi) as nat, q as nat);
            lemma_mod_add_multiples_vanish(c + qi, qi);
            lemma_mod_add_multiples_vanish(c + 2 * qi, qi);
            assert(esum[i] as int == c + qi);
        }
    }
    assert forall|i: int| 0 <= i < esum.len() implies esum[i] < q by {
        lemma_mod_bound(e1[i] + e2[i], qi);
    }
}

/// Re-randomization correctness over a secret-key zero mask: if `ct` is
/// a secret-key encryption of `m`, a ciphertext whose second half is its
/// own product plus bounded noise (an encryption of zero) is added to
/// it, and a bounded flooding polynomial is folded into the second half,
/// the result still decrypts to `m` while the summed noise leaves the
/// rounding slack.
pub proof fn lemma_rerandomize_sk_correct(
    fv: FV,
    ct: FVCiphertext,
    mask: FVCiphertext,
    ctres: FVCiphertext,
    sk: SecretKey,
    m: Seq<u8>,
    ef: Seq<u64>,
    b1: int,
    bm: int,
    bf: int,
)
    requires
        fv.wf(),
        fv.ct_wf(ct),
        fv.ct_wf(mask),
        fv.ct_wf(ctres),
        fv.sk_wf(sk),
        m.len() == fv.n,
        fv.spec_sk_encryption_of(ct, sk, m, b1),
        fv.spec_sk_zero_encryption_of(mask, sk, bm),
        ef.len() == fv.n,
        coeffs_reduced(ef, fv.q),
        spec_noise_bounded(ef, bf, fv.q),
        ctres.0.coeffs@ == spec_poly_add(ct.0.coeffs@, mask.0.coeffs@, fv.q),
        ctres.1.coeffs@ == spec_poly_add(
            spec_poly_add(ct.1.coeffs@, mask.1.coeffs@, fv.q),
            ef,
            fv.q,
        ),
        0 <= b1,
        0 <= bm,
        0 <= bf,
        b1 + bm + bf < fv.q as int / 256,
        256 * (b1 + bm + bf) + 255 * ((fv.q as int) % 256) < (fv.q as int) / 2,
    ensures
        fv.spec_decrypt(ctres, sk) == m,
{
    let q = fv.q;
    let qi = q as int;
    let d = fv.delta as int;
    let n = fv.n as int;
    let p1s = spec_product(ct.0, sk.0, fv.context);
    let pms = spec_product(mask.0, sk.0, fv.context);
    let e1 = choose|e: Seq<u64>|
        {
            &&& #[trigger] spec_noise_bounded(e, b1, fv.q)
            &&& e.len() == fv.n
            &&& coeffs_reduced(e, fv.q)
            &&& ct.1.coeffs@ == spec_delta_add(
                spec_poly_add(p1s, e, fv.q),
                m,
                fv.delta,
                fv.q,
            )
        };
    let em = choose|e: Seq<u64>|
        {
            &&& #[trigger] spec_noise_bounded(e, bm, fv.q)
            &&& e.len() == fv.n
            &&& coeffs_reduced(e, fv.q)
            &&& mask.1.coeffs@ == spec_poly_add(pms, e, fv.q)
        };
    lemma_product_len(fv, ct.0, sk.0);
    lemma_product_len(fv, mask.0, sk.0);
    lemma_product_linear(fv, ct.0, mask.0, ctres.0, sk);
    let psum = spec_product(ctres.0, sk.0, fv.context);
    assert(2 * (b1 + bm) < qi && 2 * (b1 + bm + bf) < qi) by {
        assert(256 * (b1 + bm + bf) < qi / 2);
        assert(b1 + bm + bf <= 256 * (b1 + bm + bf));
    }
    lemma_noise_sum(e1, em, b1, bm, q);
    let e12 = spec_poly_add(e1, em, q);
    lemma_noise_sum(e12, ef, b1 + bm, bf, q);
    let esum = spec_poly_add(e12, ef, q);
    // the composed second half carries the summed products, all three
    // noise terms, and the one encoding
    let base = spec_poly_add(psum, esum, q);
    let goal = spec_delta_add(base, m, fv.delta, q);
    assert forall|i: int| 0 <= i < n implies ctres.1.coeffs@[i] == goal[i] by {
        let vp1 = p1s[i] as int;
        let vpm = pms[i] as int;
        let ve1 = e1[i] as int;
        let vem = em[i] as int;
        let vef = ef[i] as int;
        let vm = (m[i] as int) * d;
        lemma_mod_bound(vp1 + ve1, qi);
        lemma_add_mod_noop(vp1 + ve1, vm, qi);
        assert(ct.1.coeffs@[i] as int == (vp1 + ve1 + vm) % qi);
        assert(mask.1.coeffs@[i] as int == (vpm + vem) % qi);
        lemma_add_mod_noop(vp1 + ve1 + vm, vpm + vem, qi);
        lemma_mod_bound(vp1 + ve1 + vm + (vpm + vem), qi);
        lemma_small_mod(ef[i] as nat, q as nat);
        lemma_add_mod_noop(vp1 + ve1 + vm + (vpm + vem), vef, qi);
        assert(ctres.1.coeffs@[i] as int == (vp1 + ve1 + vm + (vpm + vem) + vef) % qi);
        lemma_add_mod_noop(ve1, vem, qi);
        lemma_mod_bound(ve1 + vem, qi);
        lemma_small_mod(ef[i] as nat, q as nat);
        lemma_add_mod_noop(ve1 + vem, vef, qi);
        assert(esum[i] as int == (ve1 + vem + vef) % qi);
        lemma_add_mod_noop(vp1 + vpm, ve1 + vem + vef, qi);
        assert(base[i] as int == (vp1 + vpm + (ve1 + vem + vef)) % qi);
        lemma_mod_bound(vp1 + vpm + (ve1 + vem + vef), qi);
        lemma_add_mod_noop(vp1 + vpm + (ve1 + vem + vef), vm, qi);
        assert(goal[i] as int == (vp1 + vpm + (ve1 + vem + vef) + vm) % qi);
    }
    assert(ctres.1.coeffs@ =~= goal);
    assert(fv.spec_sk_encryption_of(ctres, sk, m, b1 + bm + bf)) by {
        assert(spec_noise_bounded(esum, b1 + bm + bf, fv.q) && esum.len() == fv.n
            && coeffs_reduced(esum, fv.q) && ctres.1.coeffs@ == spec_delta_add(
            spec_poly_add(spec_product(ctres.0, sk.0, fv.context), esum, fv.q),
            m,
            fv.delta,
            fv.q,
        ));
    }
    lemma_sk_decryption_correct(fv, ctres, sk, m, b1 + bm + bf);
}

/// The dispatched product has one coefficient per slot.
proof fn lemma_product_len(fv: FV, a: RqPoly, s: RqPoly)
    requires
        fv.wf(),
        a.wf(fv.n as nat, fv.q),
        s.wf(fv.n as nat, fv.q),
    ensures
        spec_product(a, s, fv.context).len() == fv.n,
{
    if fv.context.is_ntt_enabled {
        crate::ntt::lemma_ntt_mul_len(a, s, fv.context);
    }
}

} // verus!
