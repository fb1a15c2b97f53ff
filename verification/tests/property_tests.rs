use cupcake::arith::{add_mod, inv_mod, mul_mod, pow_mod, sub_mod, ArithUtils, Scalar};
use cupcake::sampling::{sample_below_from_rng, sample_ternary_poly_prng, sample_uniform_poly};
use cupcake::{RqPoly, RqPolyContext, FV};
use rand::rngs::StdRng;
use rand::{RngCore, SeedableRng};

#[test]
fn test_default_parameters() {
    let fv = cupcake::default();
    assert_eq!(fv.n, 2048);
    assert_eq!(fv.q, 18014398492704769);
    assert_eq!(fv.delta, 18014398492704769 / 256);
    assert_eq!(fv.qdivtwo, 18014398492704769 / 2);
    // the pinned noise model: sigma near 3.2 and flooding sigma 2^40
    assert_eq!(fv.stdev_pairs, 20);
    assert_eq!(fv.flood_pairs, 8);
    assert_eq!(fv.flood_scale, 1u64 << 39);
    // the 54-bit prime is NTT-friendly: q == 1 mod 4096
    assert!(fv.context.is_ntt_enabled);
    assert_eq!(fv.q % 4096, 1);
}

#[test]
fn test_scalar_mod_laws_random() {
    // add_mod, sub_mod and mul_mod agree with big-integer arithmetic
    // reduced mod q on a large batch of pseudo-random triples.
    let mut rng = StdRng::seed_from_u64(7);
    let moduli = [65537u64, 12289, 1000000, 18014398492704769];
    for _ in 0..100000 {
        let q = moduli[(rng.next_u64() % 4) as usize];
        let a = rng.next_u64() % q;
        let b = rng.next_u64() % q;
        let wide_sum = ((a as u128 + b as u128) % q as u128) as u64;
        let wide_diff = ((a as u128 + q as u128 - b as u128) % q as u128) as u64;
        let wide_prod = ((a as u128 * b as u128) % q as u128) as u64;
        assert_eq!(add_mod(a, b, q), wide_sum);
        assert_eq!(sub_mod(a, b, q), wide_diff);
        assert_eq!(mul_mod(a, b, q), wide_prod);
    }
}

#[test]
fn test_pow_and_inv_mod() {
    // exact values against an independent square-and-multiply over u128
    let q: u64 = 65537;
    assert_eq!(pow_mod(3, 0, q), 1);
    assert_eq!(pow_mod(3, 1, q), 3);
    assert_eq!(pow_mod(3, 16, q), 43046721 % 65537);
    assert_eq!(pow_mod(2, 16, q), 65536);
    // 2^16 == -1 mod 65537, so 2 has order 32
    assert_eq!(pow_mod(2, 32, q), 1);
    let mut rng = StdRng::seed_from_u64(11);
    for _ in 0..200 {
        let a = 1 + rng.next_u64() % (q - 1);
        let inv = inv_mod(a, q);
        assert_eq!(mul_mod(a, inv, q), 1);
    }
}

#[test]
fn test_ntt_round_trip() {
    // forward then inverse is the identity, coefficient-wise
    let ctx = RqPolyContext::new(16, 12289);
    assert!(ctx.is_ntt_enabled);
    let mut rng = StdRng::seed_from_u64(5);
    for _ in 0..50 {
        let p = sample_uniform_poly(&ctx, &mut rng);
        let original = p.coeffs.clone();
        let mut q = RqPoly { coeffs: original.clone(), is_ntt_form: false };
        q.forward_transform(&ctx);
        assert!(q.is_ntt_form);
        q.inverse_transform(&ctx);
        assert!(!q.is_ntt_form);
        assert_eq!(q.coeffs, original);
    }
}

#[test]
fn test_ntt_matches_schoolbook() {
    // the NTT product agrees with the schoolbook negacyclic product
    let ctx = RqPolyContext::new(16, 12289);
    assert!(ctx.is_ntt_enabled);
    let mut rng = StdRng::seed_from_u64(17);
    for _ in 0..25 {
        let a = sample_uniform_poly(&ctx, &mut rng);
        let b = sample_uniform_poly(&ctx, &mut rng);
        let slow = a.multiply(&b, ctx.q);
        let fast = a.multiply_fast(&b, &ctx);
        assert_eq!(slow.coeffs, fast.coeffs);
    }
}

#[test]
fn test_negacyclic_wraparound() {
    // X^(n-1) * X = X^n = -1 in the quotient ring: an exact value for
    // the schoolbook product
    let ctx = RqPolyContext::new(4, 1000000);
    let q = ctx.q;
    let x1 = RqPoly { coeffs: vec![0, 1, 0, 0], is_ntt_form: false };
    let x3 = RqPoly { coeffs: vec![0, 0, 0, 1], is_ntt_form: false };
    let prod = x1.multiply(&x3, q);
    // X * X^3 = X^4 = -1
    assert_eq!(prod.coeffs, vec![q - 1, 0, 0, 0]);
    let x0 = RqPoly { coeffs: vec![3, 0, 0, 0], is_ntt_form: false };
    let p2 = x0.multiply(&x1, q);
    assert_eq!(p2.coeffs, vec![0, 3, 0, 0]);
}

#[test]
fn test_sample_below_in_range() {
    let mut rng = StdRng::seed_from_u64(23);
    for bound in [1u64, 2, 3, 255, 256, 257, 65537, 1 << 60] {
        for _ in 0..200 {
            assert!(sample_below_from_rng(bound, &mut rng) < bound);
        }
    }
}

#[test]
fn test_ternary_frequencies() {
    // empirical frequencies of {-1, 0, 1} within 3 sigma of (1/4, 1/2,
    // 1/4) over a million coefficients
    let ctx = RqPolyContext::new(2048, 65537);
    let q = ctx.q;
    let mut rng = StdRng::seed_from_u64(41);
    let mut count_zero: u64 = 0;
    let mut count_one: u64 = 0;
    let mut count_minus: u64 = 0;
    let total: u64 = 1000 * 2048;
    for _ in 0..1000 {
        let p = sample_ternary_poly_prng(&ctx, &mut rng);
        for &c in p.coeffs.iter() {
            if c == 0 {
                count_zero += 1;
            } else if c == 1 {
                count_one += 1;
            } else if c == q - 1 {
                count_minus += 1;
            } else {
                panic!("non-ternary coefficient");
            }
        }
    }
    let n = total as f64;
    let sd_half = (n * 0.25f64).sqrt();
    let sd_quarter = (n * 0.1875f64).sqrt();
    assert!((count_zero as f64 - n * 0.5).abs() < 3.0 * sd_half);
    assert!((count_one as f64 - n * 0.25).abs() < 3.0 * sd_quarter);
    assert!((count_minus as f64 - n * 0.25).abs() < 3.0 * sd_quarter);
}

#[test]
fn test_uniform_chi_square() {
    // chi-square over 256 buckets of the low byte of uniform draws;
    // the p > 0.001 cutoff for 255 degrees of freedom is about 310.5
    let mut rng = StdRng::seed_from_u64(43);
    let q: u64 = 18014398492704769;
    let samples: usize = 1 << 20;
    let mut buckets = [0u64; 256];
    for _ in 0..samples {
        let v = sample_below_from_rng(q, &mut rng);
        buckets[(v % 256) as usize] += 1;
    }
    let expected = samples as f64 / 256.0;
    let mut chi2 = 0.0f64;
    for &b in buckets.iter() {
        let d = b as f64 - expected;
        chi2 += d * d / expected;
    }
    assert!(chi2 < 310.5, "chi-square too large: {}", chi2);
}

#[test]
fn test_s2_all_ones() {
    let fv = cupcake::default();
    let (pk, sk) = fv.generate_keypair();
    let v = vec![1u8; fv.n];
    let ct = fv.encrypt(&v, &pk);
    assert_eq!(fv.decrypt(&ct, &sk), v);
}

#[test]
fn test_s4_rerandomize_five_times() {
    let fv = cupcake::default();
    let (pk, sk) = fv.generate_keypair();
    let mut v = vec![0u8; fv.n];
    for i in 0..fv.n {
        v[i] = i as u8;
    }
    let mut ct = fv.encrypt(&v, &pk);
    for _ in 0..5 {
        fv.rerandomize(&mut ct, &pk);
    }
    assert_eq!(fv.decrypt(&ct, &sk), v);
}

#[test]
fn test_encrypt_zero_decrypts_to_zero() {
    let fv = FV::new(16, 65537);
    let (pk, sk) = fv.generate_keypair();
    let ct = fv.encrypt_zero(&pk);
    assert_eq!(fv.decrypt(&ct, &sk), vec![0u8; fv.n]);
    let sk2 = fv.generate_key();
    let ct2 = fv.encrypt_zero_sk(&sk2);
    assert_eq!(fv.decrypt(&ct2, &sk2), vec![0u8; fv.n]);
}

#[test]
fn test_non_pow2_dimension_disables_ntt() {
    // a dimension that is not a power of two falls back to schoolbook
    let ctx = RqPolyContext::new(6, 65537);
    assert!(!ctx.is_ntt_enabled);
    let fv = FV::new(6, 65537);
    let sk = fv.generate_key();
    let v = vec![9u8, 8, 7, 6, 5, 4];
    let ct = fv.encrypt_sk(&v, &sk);
    assert_eq!(fv.decrypt(&ct, &sk), v);
}

#[test]
fn test_scalar_backend_trait() {
    let q = Scalar::from_u64_raw(65537);
    let a = Scalar::from_u32_raw(40000);
    let b = Scalar::from_u32_raw(30000);
    assert_eq!(Scalar::to_u64(Scalar::add_mod(&a, &b, &q)), (40000 + 30000) % 65537);
    assert_eq!(Scalar::to_u64(Scalar::sub_mod(&b, &a, &q)), (30000 + 65537 - 40000) % 65537);
    assert_eq!(
        Scalar::to_u64(Scalar::mul_mod(&a, &b, &q)),
        ((40000u128 * 30000u128) % 65537) as u64
    );
    let inv = Scalar::inv_mod(&a, &q);
    assert_eq!(Scalar::to_u64(Scalar::mul_mod(&a, &inv, &q)), 1);
    assert_eq!(Scalar::to_u64(Scalar::one()), 1);
    assert_eq!(Scalar::to_u64(Scalar::zero()), 0);
    assert_eq!(Scalar::to_u64(Scalar::double(&b)), 60000);
    assert_eq!(Scalar::to_u64(Scalar::modulus(&Scalar::from_u64_raw(70000), &q)), 70000 % 65537);
    assert_eq!(Scalar::to_u64(Scalar::from_u32(70000u32 as u32, &q)), 70000 % 65537);
    assert_eq!(Scalar::to_u64(Scalar::div(&a, &b)), 1);
    for _ in 0..32 {
        assert!(Scalar::to_u64(Scalar::sample_blw(&q)) < 65537);
    }
}
