//! Curves, hashing, pads, registration and secret sharing.
use ark_bls12_381::{Fq, G1Affine};
use ark_ec::twisted_edwards::TECurveConfig;
use ark_ec::CurveGroup;
use ark_ed_on_bls12_381::{EdwardsAffine, EdwardsProjective};
use ark_ff::{AdditiveGroup, BigInteger, PrimeField};
use ark_std::UniformRand;
use golden_nidkg::curves::{
    fp_to_fs, gin_gen, gin_mul, gout_gen, gout_mul, is_in_prime_subgroup, x_coord, Fp, Fs,
    GinAffine, GoutAffine,
};
use golden_nidkg::errors::GoldenError;
use golden_nidkg::evrf::{
    eval_pad, public_inputs, try_eval_pad, try_public_inputs, Beta, SessionId,
};
use golden_nidkg::hash_to_curve::{
    canonical_sqrt, h1, h2, hash_to_fp, hash_to_gin, hash_to_gout_with_known_dlog, try_h1, try_hash_to_gin,
};
use golden_nidkg::schnorr::{verify_pki, RegisteredKey, SchnorrPoK};
use golden_nidkg::shamir::{
    evaluate_shares, interpolate_at, lagrange_coeff, recover, share, Polynomial,
};
use golden_nidkg::vss::{commit, share_commitment, verify_share};
use rand::rngs::StdRng;
use rand::SeedableRng;

fn fp(rng: &mut StdRng) -> Fp {
    Fp::from_le_bytes_mod_order(&ark_bls12_381::Fr::rand(rng).into_bigint().to_bytes_le())
}

fn fs(rng: &mut StdRng) -> Fs {
    Fs::from_le_bytes_mod_order(&ark_ed_on_bls12_381::Fr::rand(rng).into_bigint().to_bytes_le())
}

// ─── curves ─────────────────────────────────────────────────────────────────

#[test]
fn jubjub_x_is_injective_on_prime_subgroup() {
    let mut rng = StdRng::seed_from_u64(0);
    for _ in 0..50 {
        let p = gin_gen().times(&fs(&mut rng));
        let neg = p.negate();
        assert_ne!(
            x_coord(&p),
            x_coord(&neg),
            "P and -P must have distinct x on Jubjub"
        );
    }
}

#[test]
fn jubjub_base_field_is_bls_scalar_field() {
    assert_eq!(
        <ark_bls12_381::Fr as PrimeField>::MODULUS,
        <ark_ed_on_bls12_381::Fq as PrimeField>::MODULUS,
    );
    // The order itself is zero in the field.
    let order = <ark_bls12_381::Fr as PrimeField>::MODULUS.to_bytes_le();
    assert!(Fp::from_le_bytes_mod_order(&order).is_zero());
}

#[test]
fn field_operations_agree_with_arkworks() {
    let mut rng = StdRng::seed_from_u64(11);
    for _ in 0..20 {
        let a = ark_bls12_381::Fr::rand(&mut rng);
        let b = ark_bls12_381::Fr::rand(&mut rng);
        let conv = |x: ark_bls12_381::Fr| {
            Fp::from_le_bytes_mod_order(&x.into_bigint().to_bytes_le())
        };
        let (la, lb) = (conv(a), conv(b));
        assert_eq!(la + lb, conv(a + b));
        assert_eq!(la - lb, conv(a - b));
        assert_eq!(la * lb, conv(a * b));
        assert_eq!(-la, conv(-a));
        assert_eq!(la.limbs(), a.into_bigint().0);
        assert_eq!(la.inverse().unwrap() * la, Fp::one());
        let sq = la.square();
        let root = sq.sqrt().unwrap();
        assert!(root == la || root == -la);
        assert_eq!(la.pow(5), la * la * la * la * la);
    }
    assert!(Fp::zero().inverse().is_none());
    // 5 is no square in this field.
    assert!(Fp::from(5u64).sqrt().is_none());
    assert!(Fp::from_limbs([7, 0, 0, 0]) == Fp::from(7u64));
    assert!(Fp::from(5u64).bit(0) && !Fp::from(5u64).bit(1) && Fp::from(5u64).bit(2));
    assert_eq!(fp_to_fs(&Fp::from(12u64)), Fs::from(12u64));
}

#[test]
fn group_operations_follow_exponents() {
    let mut rng = StdRng::seed_from_u64(12);
    let (a, b) = (fp(&mut rng), fp(&mut rng));
    assert_eq!(gout_mul(&a).plus(&gout_mul(&b)), gout_mul(&(a + b)));
    assert_eq!(gout_mul(&a).times(&b), gout_mul(&(a * b)));
    assert_eq!(gout_mul(&a).times_small(9), gout_mul(&(a * Fp::from(9u64))));
    assert_eq!(
        GoutAffine::msm(&[gout_mul(&a), gout_gen()], &[b, Fp::from(3u64)]),
        gout_mul(&(a * b + Fp::from(3u64)))
    );
    assert!(gout_mul(&Fp::zero()).is_zero());
    assert_eq!(gout_mul(&Fp::one()), gout_gen());
    assert!(is_in_prime_subgroup(&gout_mul(&a)));
    let (c, d) = (fs(&mut rng), fs(&mut rng));
    assert_eq!(gin_mul(&c).plus(&gin_mul(&d)), gin_mul(&(c + d)));
    assert_eq!(gin_mul(&c).times(&d), gin_mul(&(c * d)));
    assert_eq!(gin_mul(&c).double(), gin_mul(&(c + c)));
    assert_eq!(gin_mul(&c).negate(), gin_mul(&(-c)));
    assert!(gin_mul(&Fs::from(0u64)).is_zero());
    assert!(is_in_prime_subgroup(&gin_mul(&c)));
}

// ─── pads ───────────────────────────────────────────────────────────────────

fn setup() -> (Fs, GinAffine, Fs, GinAffine, SessionId, Beta) {
    let mut rng = StdRng::seed_from_u64(0);
    let sk1 = fs(&mut rng);
    let pk1 = gin_mul(&sk1);
    let sk2 = fs(&mut rng);
    let pk2 = gin_mul(&sk2);
    let sid = SessionId([7u8; 32]);
    let beta = Beta::from_seed(b"test");
    (sk1, pk1, sk2, pk2, sid, beta)
}

#[test]
fn pad_is_symmetric() {
    let (sk1, pk1, sk2, pk2, sid, beta) = setup();
    let msg = b"hello";
    let (out1, _) = eval_pad(&sk1, &pk2, &sid, msg, &beta);
    let (out2, _) = eval_pad(&sk2, &pk1, &sid, msg, &beta);
    assert_eq!(out1.r, out2.r);
    assert_eq!(out1.r_commit, out2.r_commit);
}

#[test]
fn pad_depends_on_msg_and_sid_and_keys() {
    let (sk1, _pk1, _sk2, pk2, sid, beta) = setup();
    let (a, _) = eval_pad(&sk1, &pk2, &sid, b"a", &beta);
    let (b, _) = eval_pad(&sk1, &pk2, &sid, b"b", &beta);
    assert_ne!(a.r, b.r);
    let sid2 = SessionId([8u8; 32]);
    let (c, _) = eval_pad(&sk1, &pk2, &sid2, b"a", &beta);
    assert_ne!(a.r, c.r);
    // Different peer.
    let mut rng = StdRng::seed_from_u64(0);
    let pk3 = gin_mul(&fs(&mut rng));
    let (d, _) = eval_pad(&sk1, &pk3, &sid, b"a", &beta);
    assert_ne!(a.r, d.r);
    // Different β.
    let beta2 = Beta::from_seed(b"other");
    let (e, _) = eval_pad(&sk1, &pk2, &sid, b"a", &beta2);
    assert_ne!(a.r, e.r);
}

#[test]
fn r_commit_consistent() {
    let (sk1, _pk1, _sk2, pk2, sid, beta) = setup();
    let (out, _) = eval_pad(&sk1, &pk2, &sid, b"x", &beta);
    assert_eq!(out.r_commit, gout_mul(&out.r));
}

#[test]
fn witness_consistent() {
    let (sk1, pk1, _sk2, pk2, sid, beta) = setup();
    let (out, w) = eval_pad(&sk1, &pk2, &sid, b"x", &beta);
    // S = pk2^{sk1}
    assert_eq!(w.s, pk2.times(&sk1));
    // pk1 = g_in^{sk1}
    assert_eq!(pk1, gin_mul(&w.sk));
    // r consistent with the formula
    assert_eq!(w.r, beta.0 * w.r1 + w.r2);
    assert_eq!(w.r, out.r);
}

#[test]
fn no_pad_for_the_identity() {
    let (sk1, pk1, _sk2, pk2, sid, beta) = setup();
    assert!(try_eval_pad(&sk1, &GinAffine::zero(), &sid, b"x", &beta).is_none());
    assert!(try_eval_pad(&Fs::from(0u64), &pk2, &sid, b"x", &beta).is_none());
    // A pair of coordinates whose double has none.
    let off_curve = GinAffine::new_unchecked(Fp::from(1u64), Fp::from(1u64));
    assert!(off_curve.try_double().is_none());
    assert!(try_eval_pad(&Fs::from(2u64), &off_curve, &sid, b"x", &beta).is_none());
    assert!(try_eval_pad(&Fs::from(3u64), &off_curve, &sid, b"x", &beta).is_some());
    let (a, _) = try_eval_pad(&sk1, &pk2, &sid, b"x", &beta).unwrap();
    let (b, _) = eval_pad(&sk1, &pk2, &sid, b"x", &beta);
    assert_eq!(a.r, b.r);
    let p = public_inputs(&pk1, &pk2, &sid, b"x", &beta, &a.r_commit);
    let q = try_public_inputs(&pk1, &pk2, &sid, b"x", &beta, &a.r_commit).unwrap();
    assert_eq!(p.h1m, q.h1m);
    assert_eq!(p.h1m, h1(&sid.0, b"x"));
    assert_eq!(p.h2m, h2(&sid.0, b"x"));
    assert_eq!(p.r_commit, a.r_commit);
}

// ─── coordinates off the curve ──────────────────────────────────────────────

fn from_ark(v: ark_bls12_381::Fr) -> Fp {
    Fp::from_le_bytes_mod_order(&v.into_bigint().to_bytes_le())
}

#[test]
fn operations_off_the_curve_agree_with_arkworks() {
    let fr = |v: u64| ark_bls12_381::Fr::from(v);
    let p = GinAffine::new_unchecked(Fp::from(2u64), Fp::from(3u64));
    let q = GinAffine::new_unchecked(Fp::from(5u64), Fp::from(7u64));
    assert!(!p.is_on_curve() && !q.is_on_curve());
    let ap = EdwardsAffine::new_unchecked(fr(2), fr(3));
    let aq = EdwardsAffine::new_unchecked(fr(5), fr(7));
    let same = |r: GinAffine, e: EdwardsProjective| {
        let e = e.into_affine();
        r == GinAffine::new_unchecked(from_ark(e.x), from_ark(e.y))
    };
    let (pp, pq) = (EdwardsProjective::from(ap), EdwardsProjective::from(aq));
    assert!(same(p.plus(&q), pp + aq));
    assert!(same(p.plus(&q), pp + pq));
    assert!(same(p.double(), pp.double()));
    assert!(same(p.times(&Fs::from(11u64)), pp * ark_ed_on_bls12_381::Fr::from(11u64)));
    // Off the curve the double is not the sum with itself.
    assert_ne!(p.double(), p.plus(&p));
    let e = p.to_proj().plus(&q);
    assert_eq!(from_ark((pp + aq).z), e.z);
    assert_eq!(from_ark((pp + aq).t), e.t);
    assert_eq!(e.into_affine(), p.plus(&q));
}

#[test]
fn pad_with_a_key_off_the_curve() {
    let (sk1, _pk1, _sk2, _pk2, sid, beta) = setup();
    let pk = GinAffine::new_unchecked(Fp::from(2u64), Fp::from(3u64));
    let (out, w) = eval_pad(&sk1, &pk, &sid, b"x", &beta);
    assert_eq!(w.s, pk.times(&sk1));
    assert!(!w.s.is_on_curve());
    assert_eq!(w.k, fp_to_fs(&w.s.x));
    assert_eq!(w.t1, h1(&sid.0, b"x").times(&w.k));
    assert_eq!(out.r, beta.0 * w.t1.x + w.t2.x);
}

#[test]
fn extended_coordinates_compare_by_cross_multiplication() {
    let (p, r) = (gin_mul(&Fs::from(3u64)), gin_mul(&Fs::from(4u64)));
    let s = p.plus(&r).to_proj();
    assert!(p.to_proj().plus(&r).same(&s));
    assert!(!p.to_proj().plus(&p).same(&s));
    let zero = GinAffine::zero().to_proj();
    assert!(p.to_proj().plus(&p.negate()).same(&zero));
    assert!(!zero.same(&s) && !s.same(&zero));
    // The addition formulas have a second solution q of p + q = s, off the curve. With
    // t = d·x1·y1·x2·y2, the coordinates of q are linear in t, and the two values of t are
    // the roots of a quadratic equation.
    let d = from_ark(<ark_ed_on_bls12_381::JubjubConfig as TECurveConfig>::COEFF_D);
    let sum = p.plus(&r);
    let den = (p.y * p.y - p.x * p.x).inverse().unwrap();
    let (a, b) = ((p.y * sum.x - p.x * sum.y) * den, (p.y * sum.x + p.x * sum.y) * den);
    let (e, f) = ((p.y * sum.y - p.x * sum.x) * den, -(p.y * sum.y + p.x * sum.x) * den);
    let t0 = d * p.x * p.y * r.x * r.y;
    assert_eq!(r, GinAffine::new_unchecked(a + b * t0, e + f * t0));
    let t1 = a * e * (b * f * t0).inverse().unwrap();
    let q = GinAffine::new_unchecked(a + b * t1, e + f * t1);
    assert!(!q.is_on_curve());
    assert!(p.to_proj().plus(&q).same(&s));
}

// ─── hashing to the curve ───────────────────────────────────────────────────

#[test]
fn h2c_in_subgroup_and_deterministic() {
    let p1 = hash_to_gin(b"test", b"hello");
    let p2 = hash_to_gin(b"test", b"hello");
    assert_eq!(p1, p2);
    assert!(p1.is_on_curve());
    assert!(!p1.is_zero());
    // Different messages → different points
    let p3 = hash_to_gin(b"test", b"world");
    assert_ne!(p1, p3);
    // Different domains → different points
    let p4 = hash_to_gin(b"test2", b"hello");
    assert_ne!(p1, p4);
    // H1 != H2 on the same input
    assert_ne!(h1(b"sid", b"hello"), h2(b"sid", b"hello"));
    // sid binding
    assert_ne!(h1(b"sid1", b"hello"), h1(b"sid2", b"hello"));
}

#[test]
fn h2c_in_prime_subgroup() {
    let p = hash_to_gin(b"test", b"sub");
    let order_minus_one = -Fs::from(1u64);
    let q = p.times(&order_minus_one).plus(&p);
    assert!(q.is_zero());
}

#[test]
fn hash_inputs_are_separated_by_length() {
    // The lengths of domain and message go into the hash.
    assert_ne!(hash_to_fp(b"ab", b"c"), hash_to_fp(b"a", b"bc"));
    assert_ne!(h1(b"ab", b"c"), h1(b"a", b"bc"));
    assert_eq!(try_hash_to_gin(b"test", b"hello").unwrap(), hash_to_gin(b"test", b"hello"));
    assert_eq!(try_h1(b"sid", b"m").unwrap(), h1(b"sid", b"m"));
    assert_eq!(hash_to_gout_with_known_dlog(b"d", b"m"), gout_mul(&hash_to_fp(b"d", b"m")));
}

#[test]
fn canonical_root_has_the_smaller_bytes() {
    // p − 1 ends in a zero byte, and 1 does not.
    let one = Fp::from(1u64);
    assert_eq!(canonical_sqrt(one), -one);
    assert_eq!(canonical_sqrt(-one), -one);
    assert_eq!(canonical_sqrt(Fp::zero()), Fp::zero());
    let bytes = |x: Fp| {
        ark_bls12_381::Fr::new(ark_ff::BigInt(x.limbs())).into_bigint().to_bytes_le()
    };
    let mut rng = StdRng::seed_from_u64(11);
    for _ in 0..20 {
        let r = fp(&mut rng);
        let x = canonical_sqrt(r);
        assert!(x == r || x == -r);
        assert!(bytes(x) <= bytes(-x));
        assert_eq!(canonical_sqrt(-r), x);
        assert_eq!(canonical_sqrt(x), x);
        assert_eq!(x * x, r * r);
    }
}

// ─── registration ───────────────────────────────────────────────────────────

#[test]
fn pok_roundtrip() {
    let mut rng = StdRng::seed_from_u64(0);
    let (rk, _) = RegisteredKey::fresh(1, &mut rng);
    assert!(rk.verify().is_ok());
}

#[test]
fn pok_replay_to_other_id_fails() {
    let mut rng = StdRng::seed_from_u64(0);
    let (rk1, _) = RegisteredKey::fresh(1, &mut rng);
    let stolen = RegisteredKey {
        id: 2,
        pk: rk1.pk,
        pok: rk1.pok.clone(),
    };
    assert!(stolen.verify().is_err());
}

#[test]
fn identity_key_rejected() {
    let mut rng = StdRng::seed_from_u64(0);
    let pk = GinAffine::zero();
    let pok = SchnorrPoK::prove(1, &Fs::from(0u64), &pk, &mut rng);
    assert!(pok.verify(1, &pk).is_err());
}

#[test]
fn pki_collision_rejected() {
    let mut rng = StdRng::seed_from_u64(0);
    let (rk1, sk1) = RegisteredKey::fresh(1, &mut rng);
    let rk2 = RegisteredKey::new(2, &sk1, &mut rng);
    assert!(verify_pki(&[rk1.clone(), rk2]).is_err());

    // Negated key.
    let rk3 = RegisteredKey::new(3, &(-sk1), &mut rng);
    assert!(verify_pki(&[rk1, rk3]).is_err());
}

#[test]
fn small_order_component_rejected() {
    let mut rng = StdRng::seed_from_u64(0);
    let (rk, _) = RegisteredKey::fresh(1, &mut rng);
    let two_torsion = GinAffine::new_unchecked(Fp::from(0u64), -Fp::from(1u64));
    assert!(two_torsion.is_on_curve());
    assert!(!is_in_prime_subgroup(&two_torsion));
    let bad_pk = rk.pk.plus(&two_torsion);
    let bad = RegisteredKey {
        id: 1,
        pk: bad_pk,
        pok: rk.pok.clone(),
    };
    assert!(matches!(
        bad.verify(),
        Err(GoldenError::PublicKeyNotInSubgroup { party: 1 })
    ));
}

#[test]
fn registration_errors_are_named() {
    let mut rng = StdRng::seed_from_u64(3);
    let (rk1, sk1) = RegisteredKey::fresh(1, &mut rng);
    let (rk2, _) = RegisteredKey::fresh(2, &mut rng);
    assert!(verify_pki(&[rk1.clone(), rk2.clone()]).is_ok());
    let twin = RegisteredKey::new(7, &sk1, &mut rng);
    assert!(matches!(
        verify_pki(&[rk1.clone(), rk2.clone(), twin]),
        Err(GoldenError::PkiKeyCollision { a: 1, b: 7 })
    ));
    let identity = RegisteredKey { id: 4, pk: GinAffine::zero(), pok: rk1.pok.clone() };
    assert!(matches!(identity.verify(), Err(GoldenError::IdentityPublicKey { party: 4 })));
    let wrong = RegisteredKey { id: 5, pk: rk2.pk, pok: rk1.pok.clone() };
    assert!(matches!(wrong.verify(), Err(GoldenError::SchnorrPoKFailed { party: 5 })));
    // A commitment off the curve does not satisfy the equation.
    let mut off = rk1.clone();
    off.pok.commitment = GinAffine::new_unchecked(Fp::from(2u64), Fp::from(3u64));
    assert!(matches!(off.verify(), Err(GoldenError::SchnorrPoKFailed { party: 1 })));
    // A proof with a given nonce verifies, and is determined by it.
    let k = Fs::from(99u64);
    let p = SchnorrPoK::prove_with(1, &sk1, &rk1.pk, &k);
    assert!(p.verify(1, &rk1.pk).is_ok());
    let q = SchnorrPoK::prove_with(1, &sk1, &rk1.pk, &k);
    assert!(p.commitment == q.commitment && p.response == q.response);
    assert_eq!(p.commitment, gin_mul(&k));
}

// ─── secret sharing ─────────────────────────────────────────────────────────

#[test]
fn share_recover_roundtrip() {
    let mut rng = StdRng::seed_from_u64(0);
    for (n, t) in [(1, 1), (3, 2), (5, 3), (10, 7)] {
        let secret = fp(&mut rng);
        let (_, shares) = share(secret, n, t, &mut rng);
        // Use exactly t shares
        let recovered = recover(t, &shares[..t as usize]).unwrap();
        assert_eq!(recovered, secret);
        // Use all n shares
        let recovered_all = recover(t, &shares).unwrap();
        assert_eq!(recovered_all, secret);
    }
}

#[test]
fn fewer_than_t_shares_fails() {
    let mut rng = StdRng::seed_from_u64(0);
    let secret = fp(&mut rng);
    let (_, shares) = share(secret, 5, 3, &mut rng);
    assert!(recover(3, &shares[..2]).is_err());
}

#[test]
fn t_minus_one_shares_do_not_reveal() {
    let mut rng = StdRng::seed_from_u64(0);
    let secret = fp(&mut rng);
    let (_, shares) = share(secret, 5, 3, &mut rng);
    // Force "recovery" with only t-1 shares by lying about `t`.
    let bad = recover(2, &shares[..2]).unwrap();
    assert_ne!(bad, secret);
}

#[test]
fn duplicate_indices_rejected() {
    let mut rng = StdRng::seed_from_u64(0);
    let secret = fp(&mut rng);
    let (_, shares) = share(secret, 5, 3, &mut rng);
    let dup = vec![shares[0], shares[0], shares[1]];
    assert!(recover(3, &dup).is_err());
}

#[test]
fn index_zero_rejected() {
    let mut rng = StdRng::seed_from_u64(0);
    let secret = fp(&mut rng);
    let (poly, shares) = share(secret, 5, 3, &mut rng);
    let bad = vec![(0u32, poly.secret()), shares[0], shares[1]];
    assert!(recover(3, &bad).is_err());
}

#[test]
fn interpolate_arbitrary_point() {
    let mut rng = StdRng::seed_from_u64(0);
    let secret = fp(&mut rng);
    let (poly, shares) = share(secret, 5, 3, &mut rng);
    let z = Fp::from(42u64);
    assert_eq!(interpolate_at(&shares[..3], z), poly.evaluate(z));
}

#[test]
fn recovery_errors_are_named() {
    let one = (1u32, Fp::from(10u64));
    let two = (2u32, Fp::from(20u64));
    assert!(matches!(
        recover(3, &[one, two]),
        Err(GoldenError::NotEnoughShares { have: 2, need: 3 })
    ));
    assert!(matches!(recover(2, &[one, one]), Err(GoldenError::DuplicateShareIndex)));
    assert!(matches!(
        recover(2, &[(0, Fp::from(1u64)), one]),
        Err(GoldenError::InvalidShareIndex)
    ));
    // The line through (1, 10) and (2, 20) goes through the origin.
    assert_eq!(recover(2, &[one, two]).unwrap(), Fp::zero());
}

#[test]
fn lagrange_coefficients_of_small_sets() {
    // L_1(0) = 2, L_2(0) = -1 for the indices 1, 2.
    assert_eq!(lagrange_coeff(&[1, 2], 1, Fp::zero()), Fp::from(2u64));
    assert_eq!(lagrange_coeff(&[1, 2], 2, Fp::zero()), -Fp::from(1u64));
    let poly = Polynomial::from_coeffs(vec![Fp::from(42u64), Fp::from(3u64), Fp::from(7u64)]);
    assert_eq!(poly.t(), 3);
    assert_eq!(poly.secret(), Fp::from(42u64));
    assert_eq!(poly.coeffs().len(), 3);
    let shares = evaluate_shares(&poly, 2);
    assert!(shares[0] == (1, Fp::from(52u64)) && shares[1] == (2, Fp::from(76u64)));
}

#[test]
fn share_commitments_match() {
    let mut rng = StdRng::seed_from_u64(0);
    let secret = fp(&mut rng);
    let (poly, shares) = share(secret, 5, 3, &mut rng);
    let c = commit(&poly);
    assert_eq!(c.len(), 3);
    for (j, x) in shares {
        assert!(verify_share(&c, j, x));
    }
    // and the secret commitment is C[0]
    let pk = gout_mul(&secret);
    assert_eq!(c[0], pk);
}

#[test]
fn tampered_share_rejected() {
    let mut rng = StdRng::seed_from_u64(0);
    let secret = fp(&mut rng);
    let (poly, shares) = share(secret, 5, 3, &mut rng);
    let c = commit(&poly);
    let (j, x) = shares[0];
    assert!(!verify_share(&c, j, x + Fp::from(1u64)));
}

#[test]
fn share_commitment_is_commitment_to_share() {
    let poly = Polynomial::from_coeffs(vec![Fp::from(42u64), Fp::from(3u64), Fp::from(7u64)]);
    let c = commit(&poly);
    assert_eq!(share_commitment(&c, 5), gout_mul(&Fp::from(232u64)));
    assert_eq!(share_commitment(&c, 0), gout_mul(&Fp::from(42u64)));
}

/// Shares of `f(Z) = 42 + 3Z + 7Z²` at `Z = 1..5`.
#[test]
fn shamir_small_integer_eval_matches_fy() {
    let coeffs = [Fp::from(42u64), Fp::from(3u64), Fp::from(7u64)];
    let poly = Polynomial::from_coeffs(coeffs.to_vec());
    let expected = [52u64, 76, 114, 166, 232];
    for (i, &e) in expected.iter().enumerate() {
        let z = Fp::from((i + 1) as u64);
        assert_eq!(
            poly.evaluate(z),
            Fp::from(e),
            "f({}) should be {}",
            i + 1,
            e
        );
    }
    // Recovering from t = 3 shares must yield the secret.
    let shares: Vec<(u32, Fp)> = (1u32..=3).map(|i| (i, poly.evaluate(Fp::from(i)))).collect();
    assert_eq!(recover(3, &shares).unwrap(), Fp::from(42u64));
}

#[test]
fn feldman_vss_consistent_with_shamir() {
    let mut rng = StdRng::seed_from_u64(0);
    let secret = Fp::from(42u64);
    let (poly, shares) = share(secret, 5, 3, &mut rng);
    let c = commit(&poly);
    assert_eq!(c.len(), 3);
    for (j, s) in shares {
        assert!(verify_share(&c, j, s));
    }
}

#[test]
fn pad_symmetry_invariant() {
    let mut rng = StdRng::seed_from_u64(0);
    let sk_a = fs(&mut rng);
    let sk_b = fs(&mut rng);
    let pk_a = gin_mul(&sk_a);
    let pk_b = gin_mul(&sk_b);
    let sid = SessionId([3u8; 32]);
    let beta = Beta::from_seed(b"x");
    let (out_ab, _) = eval_pad(&sk_a, &pk_b, &sid, b"m", &beta);
    let (out_ba, _) = eval_pad(&sk_b, &pk_a, &sid, b"m", &beta);
    assert_eq!(out_ab.r, out_ba.r);
    assert_eq!(out_ab.r_commit, out_ba.r_commit);
}

// ─── errors ─────────────────────────────────────────────────────────────────

#[test]
fn error_messages() {
    assert_eq!(
        GoldenError::NotEnoughShares { have: 2, need: 13 }.message(),
        "not enough shares: have 2, need 13"
    );
    assert_eq!(
        GoldenError::CiphertextCheckFailed { dealer: 1, recipient: 20 }.message(),
        "ciphertext consistency check failed: dealer 1 → recipient 20"
    );
    assert_eq!(
        GoldenError::Proof(String::from("zero challenge")).message(),
        "Bulletproofs proof error: zero challenge"
    );
    assert_eq!(
        GoldenError::TooManyPeers { got: 10, max: 0 }.message(),
        "dealing has 10 recipients but the ZK CRS supports at most 0"
    );
}

#[test]
fn share_commitment_is_a_sum_over_the_curve() {
    let mut x = Fq::from(2u64);
    let mut points: Vec<GoutAffine> = Vec::new();
    while points.len() < 3 {
        if let Some(p) = G1Affine::get_point_from_x_unchecked(x, false) {
            if !p.is_in_correct_subgroup_assuming_on_curve() {
                let q = GoutAffine::new_unchecked(p.x.into_bigint().0, p.y.into_bigint().0);
                points.push(q.unwrap());
            }
        }
        x += Fq::from(1u64);
    }
    // A_0 + 2·A_1 + 4·A_2
    let two = |p: &GoutAffine| p.plus(p);
    let expected = points[0].plus(&two(&points[1])).plus(&two(&two(&points[2])));
    assert_eq!(share_commitment(&points, 2), expected);
    assert_eq!(share_commitment(&points, 1), points[0].plus(&points[1]).plus(&points[2]));
    assert_eq!(share_commitment(&points, 0), points[0]);
    assert_eq!(share_commitment(&points[..1], 9), points[0]);
}
