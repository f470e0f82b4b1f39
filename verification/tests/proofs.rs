//! Inner-product arguments, constraint systems, gadgets and pad proofs.
use ark_ff::{BigInteger, PrimeField};
use ark_std::UniformRand;
use golden_nidkg::curves::{
    gin_gen, gin_mul, gout_gen, gout_mul, Fp, Fs, GinAffine, GoutAffine,
};
use golden_nidkg::errors::GoldenError;
use golden_nidkg::evrf::{eval_pad, public_inputs, Beta, EvrfWitness, SessionId};
use golden_nidkg::hash_to_curve::{h1, h2};
use golden_nidkg::zk::bp_r1cs::{padded_len, verify_batch, Prover, Verifier};
use golden_nidkg::zk::evrf_circuit::{
    batch_gens_capacity, build_circuit, gens_capacity, EvrfPeerInputs, DEFAULT_LAMBDA,
};
use golden_nidkg::zk::evrf_proof::{
    collect_evrf_check, prove_evrf, prove_evrf_batch, verify_evrf, verify_evrf_batch,
    verify_evrf_checks, BatchPublicInputs, EvrfProof, ZkMode, ZkParams,
};
use golden_nidkg::zk::gadgets::{
    add_const, add_var, assert_eq_point, bit_decompose, bit_decompose_canonical, fp_to_bits_le,
    fs_to_bits_le, on_curve, scalar_mul_const, PointVar, ScalarVar,
};
use golden_nidkg::zk::generators::{
    hash_to_gout_known_dlog, pedersen_commit, BpGens, PedersenGens,
};
use golden_nidkg::zk::ipa::{inner_product, powers, sum_of_powers, InnerProductProof};
use golden_nidkg::zk::r1cs::{ConstraintSystem, LinearCombination, Variable};
use merlin::Transcript;
use rand::rngs::StdRng;
use rand::SeedableRng;
use sha2::Digest;

fn fp(rng: &mut StdRng) -> Fp {
    Fp::from_le_bytes_mod_order(&ark_bls12_381::Fr::rand(rng).into_bigint().to_bytes_le())
}

fn fs(rng: &mut StdRng) -> Fs {
    Fs::from_le_bytes_mod_order(&ark_ed_on_bls12_381::Fr::rand(rng).into_bigint().to_bytes_le())
}

fn test_rng() -> StdRng {
    let mut seed = [0u8; 32];
    seed[0] = 1;
    seed[4] = 23;
    seed[8] = 200;
    seed[9] = 1;
    seed[12] = 210;
    seed[13] = 30;
    StdRng::from_seed(seed)
}

// ─── generators ─────────────────────────────────────────────────────────────

#[test]
fn gens_distinct() {
    let g = BpGens::new(4);
    let mut all: Vec<GoutAffine> = Vec::new();
    all.push(g.b);
    all.push(g.b_blinding);
    all.extend(&g.g_vec);
    all.extend(&g.h_vec);
    for i in 0..all.len() {
        for j in (i + 1)..all.len() {
            assert_ne!(all[i], all[j], "generators {i} and {j} collide");
        }
    }
}

#[test]
fn generators_are_reproducible() {
    let (a, b) = (BpGens::new(2), BpGens::new(4));
    assert_eq!(a.b, gout_gen());
    assert_eq!(a.g_vec[1], b.g_vec[1]);
    assert_eq!(a.h_vec[0], b.h_vec[0]);
    let (g, h) = b.share(3);
    assert_eq!(g.len(), 3);
    assert_eq!(h.len(), 3);
    assert!(b.check());
    assert_eq!(BpGens::try_new(2).unwrap().g_vec, a.g_vec);
    let mut off = a.clone();
    off.h_vec[1] = GoutAffine::new_unchecked([1; 6], [1; 6]).unwrap();
    assert!(!off.check());
    let v = pedersen_commit(&a.b, &a.b_blinding, &Fp::from(5u64), &Fp::zero());
    assert_eq!(v, gout_mul(&Fp::from(5u64)));
}

#[test]
fn pedersen_commitments_add_up() {
    let g = PedersenGens::new();
    assert!(g.check());
    let (v, w) = (Fp::from(5u64), Fp::from(8u64));
    let (b, c) = (Fp::from(21u64), Fp::from(34u64));
    let sum = g.commit(&v, &b).plus(&g.commit(&w, &c));
    assert_eq!(sum, g.commit(&(v + w), &(b + c)));
    assert_ne!(sum, g.commit(&(v + w), &b));
    // The prover's commitment is the same.
    let gens = BpGens::new(2);
    let mut prover = Prover::new(&gens, Transcript::new(b"test"));
    assert_eq!(prover.commit(v, b).0, g.commit(&v, &b));
    // Without blinding the blinding base does not matter.
    assert_eq!(g.commit(&v, &Fp::zero()), gout_mul(&v));
    let off = GoutAffine::new_unchecked([1; 6], [1; 6]).unwrap();
    let odd = PedersenGens { b: g.b, b_blinding: off };
    assert!(!odd.check());
    assert_eq!(odd.commit(&v, &Fp::zero()), gout_mul(&v));
}

#[test]
fn cheap_generators_have_a_known_logarithm() {
    let mut input = b"golden-nidkg/bp-gens-fast/v1label".to_vec();
    input.extend_from_slice(&7u64.to_le_bytes());
    let k = Fp::from_le_bytes_mod_order(&sha2::Sha512::digest(&input));
    assert_eq!(hash_to_gout_known_dlog(b"label", 7), gout_mul(&k));
}

// ─── inner-product argument ─────────────────────────────────────────────────

#[test]
fn ipa_roundtrip() {
    let mut rng = test_rng();
    let n = 8;
    let gens = BpGens::new(n);
    let q = gens.b_blinding; // any unrelated generator
    let a: Vec<Fp> = (0..n).map(|_| fp(&mut rng)).collect();
    let b: Vec<Fp> = (0..n).map(|_| fp(&mut rng)).collect();
    let c = inner_product(&a, &b);
    let ones = vec![Fp::one(); n];
    // P = G^a H^b Q^c
    let mut bases: Vec<GoutAffine> = gens.g_vec.clone();
    bases.extend(&gens.h_vec);
    bases.push(q);
    let mut scalars: Vec<Fp> = a.clone();
    scalars.extend(&b);
    scalars.push(c);
    let p = GoutAffine::msm(&bases, &scalars);

    let mut t1 = Transcript::new(b"ipa-test");
    let proof = InnerProductProof::create(
        &mut t1, &q, &ones, &ones, &gens.g_vec, &gens.h_vec, &a, &b,
    );
    let mut t2 = Transcript::new(b"ipa-test");
    proof
        .verify(n, &mut t2, &ones, &ones, &p, &q, &gens.g_vec, &gens.h_vec)
        .unwrap();
    // Tampered P fails.
    let mut t3 = Transcript::new(b"ipa-test");
    let bad_p = p.plus(&q);
    assert!(proof
        .verify(n, &mut t3, &ones, &ones, &bad_p, &q, &gens.g_vec, &gens.h_vec)
        .is_err());
    // Another length is refused.
    let mut t4 = Transcript::new(b"ipa-test");
    assert_eq!(
        proof.verification_scalars(16, &mut t4).err().unwrap(),
        "IPA length mismatch: 3 L/R vs n=16"
    );
}

#[test]
fn ipa_with_factors() {
    let mut rng = test_rng();
    let n = 4;
    let gens = BpGens::new(n);
    let q = gens.b_blinding;
    let a: Vec<Fp> = (0..n).map(|_| fp(&mut rng)).collect();
    let b: Vec<Fp> = (0..n).map(|_| fp(&mut rng)).collect();
    let h_factors: Vec<Fp> = (0..n).map(|_| fp(&mut rng)).collect();
    let ones = vec![Fp::one(); n];
    let c = inner_product(&a, &b);
    // P uses H' = H_i^{h_factor_i}
    let h_prime: Vec<GoutAffine> = gens
        .h_vec
        .iter()
        .zip(&h_factors)
        .map(|(p, s)| p.times(s))
        .collect();
    let mut bases: Vec<GoutAffine> = gens.g_vec.clone();
    bases.extend(&h_prime);
    bases.push(q);
    let mut scalars: Vec<Fp> = a.clone();
    scalars.extend(&b);
    scalars.push(c);
    let p = GoutAffine::msm(&bases, &scalars);

    let mut t1 = Transcript::new(b"ipa-test2");
    let proof = InnerProductProof::create(
        &mut t1, &q, &ones, &h_factors, &gens.g_vec, &gens.h_vec, &a, &b,
    );
    let mut t2 = Transcript::new(b"ipa-test2");
    proof
        .verify(n, &mut t2, &ones, &h_factors, &p, &q, &gens.g_vec, &gens.h_vec)
        .unwrap();
}

#[test]
fn ipa_without_a_round() {
    let gens = BpGens::new(1);
    let q = gens.b_blinding;
    let (a, b) = ([Fp::from(3u64)], [Fp::from(5u64)]);
    let (gf, hf) = ([Fp::from(2u64)], [Fp::one()]);
    let mut t1 = Transcript::new(b"ipa-one");
    let proof =
        InnerProductProof::create(&mut t1, &q, &gf, &hf, &gens.g_vec, &gens.h_vec, &a, &b);
    assert!(proof.l_vec.is_empty() && proof.r_vec.is_empty());
    assert_eq!((proof.a, proof.b), (a[0], b[0]));
    let bases = [gens.g_vec[0], gens.h_vec[0], q];
    let p = GoutAffine::msm(&bases, &[Fp::from(6u64), Fp::from(5u64), Fp::from(15u64)]);
    let verify = |p: &GoutAffine| {
        let mut t2 = Transcript::new(b"ipa-one");
        proof.verify(1, &mut t2, &gf, &hf, p, &q, &gens.g_vec, &gens.h_vec)
    };
    assert!(verify(&p).is_ok());
    assert_eq!(verify(&p.plus(&q)), Err("IPA verification failed".to_string()));
    // Factors behind the length are not looked at.
    let (gf, hf) = ([Fp::from(2u64), Fp::from(9u64)], [Fp::one(), Fp::zero()]);
    let mut t2 = Transcript::new(b"ipa-one");
    assert!(proof.verify(1, &mut t2, &gf, &hf, &p, &q, &gens.g_vec, &gens.h_vec).is_ok());
    // Without factors there are no bases either, and the product is Q^{ab}.
    let mut t2 = Transcript::new(b"ipa-one");
    let qab = q.times(&Fp::from(15u64));
    assert!(proof.verify(1, &mut t2, &[], &[], &qab, &q, &[], &[]).is_ok());
}

#[test]
fn powers_of_small_numbers() {
    let two = Fp::from(2u64);
    assert_eq!(powers(two, 4)[3], Fp::from(8u64));
    assert_eq!(powers(two, 1)[0], Fp::one());
    assert_eq!(sum_of_powers(two, 8), Fp::from(255u64));
    assert_eq!(sum_of_powers(two, 0), Fp::zero());
    assert_eq!(
        inner_product(&[Fp::from(2u64), Fp::from(3u64)], &[Fp::from(5u64), Fp::from(7u64)]),
        Fp::from(31u64)
    );
}

// ─── constraint systems ─────────────────────────────────────────────────────

/// `(a + b) * (c + d) = e` for committed values.
fn toy_gadget<CS: ConstraintSystem>(
    cs: &mut CS,
    a: Variable,
    b: Variable,
    c: Variable,
    d: Variable,
    e: Variable,
) {
    let (_, _, out) = cs.multiply(
        LinearCombination::from(a) + b,
        LinearCombination::from(c) + d,
    );
    cs.constrain(LinearCombination::from(e) - out);
}

#[test]
fn bp_r1cs_toy() {
    let mut rng = test_rng();
    let gens = BpGens::new(8);

    let (a, b, c, d) = (
        Fp::from(3u64),
        Fp::from(4u64),
        Fp::from(5u64),
        Fp::from(6u64),
    );
    let e = (a + b) * (c + d);
    let blindings: Vec<Fp> = (0..5).map(|_| fp(&mut rng)).collect();

    let mut prover = Prover::new(&gens, Transcript::new(b"test"));
    let (va_c, va) = prover.commit(a, blindings[0]);
    let (vb_c, vb) = prover.commit(b, blindings[1]);
    let (vc_c, vc) = prover.commit(c, blindings[2]);
    let (vd_c, vd) = prover.commit(d, blindings[3]);
    let (ve_c, ve) = prover.commit(e, blindings[4]);
    toy_gadget(&mut prover, va, vb, vc, vd, ve);
    let proof = prover.prove(&mut rng).unwrap();

    let mut verifier = Verifier::new(&gens, Transcript::new(b"test"));
    let va = verifier.commit(va_c);
    let vb = verifier.commit(vb_c);
    let vc = verifier.commit(vc_c);
    let vd = verifier.commit(vd_c);
    let ve = verifier.commit(ve_c);
    toy_gadget(&mut verifier, va, vb, vc, vd, ve);
    verifier.verify(&proof).unwrap();
}

#[test]
fn bp_r1cs_toy_wrong() {
    let mut rng = test_rng();
    let gens = BpGens::new(8);

    let (a, b, c, d) = (
        Fp::from(3u64),
        Fp::from(4u64),
        Fp::from(5u64),
        Fp::from(6u64),
    );
    let e_wrong = (a + b) * (c + d) + Fp::one();
    let blindings: Vec<Fp> = (0..5).map(|_| fp(&mut rng)).collect();

    let mut prover = Prover::new(&gens, Transcript::new(b"test"));
    let (va_c, va) = prover.commit(a, blindings[0]);
    let (vb_c, vb) = prover.commit(b, blindings[1]);
    let (vc_c, vc) = prover.commit(c, blindings[2]);
    let (vd_c, vd) = prover.commit(d, blindings[3]);
    let (ve_c, ve) = prover.commit(e_wrong, blindings[4]);
    // The prover's circuit is empty, the verifier's is not.
    let _ = (va, vb, vc, vd, ve);
    let proof = prover.prove(&mut rng).unwrap();

    let mut verifier = Verifier::new(&gens, Transcript::new(b"test"));
    let va = verifier.commit(va_c);
    let vb = verifier.commit(vb_c);
    let vc = verifier.commit(vc_c);
    let vd = verifier.commit(vd_c);
    let ve = verifier.commit(ve_c);
    toy_gadget(&mut verifier, va, vb, vc, vd, ve);
    assert!(verifier.verify(&proof).is_err());
}

#[test]
fn bp_r1cs_zero_blinding_links() {
    // Commit with γ=0 ⇒ V = B^v.
    let mut rng = test_rng();
    let gens = BpGens::new(8);
    let v = Fp::from(42u64);

    let mut prover = Prover::new(&gens, Transcript::new(b"link"));
    let (vc, vv) = prover.commit(v, Fp::zero());
    // V should be exactly B^v.
    assert_eq!(vc, gens.b.times(&v));
    // Trivial constraint v - 42 == 0
    prover.constrain(LinearCombination::from(vv) - Fp::from(42u64));
    // Add a dummy multiplier so n >= 1.
    prover
        .allocate_multiplier(Some((Fp::zero(), Fp::zero())))
        .unwrap();
    let proof = prover.prove(&mut rng).unwrap();

    let mut verifier = Verifier::new(&gens, Transcript::new(b"link"));
    let vv = verifier.commit(vc);
    verifier.constrain(LinearCombination::from(vv) - Fp::from(42u64));
    verifier.allocate_multiplier(None).unwrap();
    verifier.verify(&proof).unwrap();
}

fn square_proof(
    gens: &BpGens,
    v: u64,
    rng: &mut StdRng,
) -> (GoutAffine, golden_nidkg::zk::bp_r1cs::R1CSProof) {
    let mut prover = Prover::new(gens, Transcript::new(b"square"));
    let (c, var) = prover.commit(Fp::from(v), Fp::from(77u64));
    let (_, _, out) = prover.multiply(LinearCombination::from(var), LinearCombination::from(var));
    prover.constrain(LinearCombination::from(out) - Fp::from(v * v));
    (c, prover.prove(rng).unwrap())
}

fn square_verifier<'g>(gens: &'g BpGens, c: GoutAffine, square: u64) -> Verifier<'g> {
    let mut verifier = Verifier::new(gens, Transcript::new(b"square"));
    let var = verifier.commit(c);
    let (_, _, out) = verifier.multiply(LinearCombination::from(var), LinearCombination::from(var));
    verifier.constrain(LinearCombination::from(out) - Fp::from(square));
    verifier
}

#[test]
fn batch_of_checks() {
    let mut rng = test_rng();
    let gens = BpGens::new(2);
    let (c1, p1) = square_proof(&gens, 3, &mut rng);
    let (c2, p2) = square_proof(&gens, 5, &mut rng);
    let k1 = square_verifier(&gens, c1, 9).collect_check(&p1).unwrap();
    let k2 = square_verifier(&gens, c2, 25).collect_check(&p2).unwrap();
    let wrong = square_verifier(&gens, c2, 26).collect_check(&p2).unwrap();
    assert!(k1.verify(&gens).is_ok());
    assert_eq!(wrong.verify(&gens).err().unwrap(), "R1CS verification failed");
    assert!(verify_batch(&gens, &[]).is_ok());
    assert!(verify_batch(&gens, &[k1.clone(), k2]).is_ok());
    assert_eq!(
        verify_batch(&gens, &[k1, wrong]).err().unwrap(),
        "R1CS verification failed"
    );
}

#[test]
fn circuits_that_are_too_large_are_refused() {
    let mut rng = test_rng();
    let gens = BpGens::new(2);
    let mut prover = Prover::new(&gens, Transcript::new(b"big"));
    for _ in 0..3 {
        prover.allocate_multiplier(Some((Fp::one(), Fp::one()))).unwrap();
    }
    assert_eq!(prover.num_multipliers(), 3);
    assert_eq!(prover.prove(&mut rng).err().unwrap(), "circuit too large: 4 > 2");
    let (c, p) = square_proof(&gens, 3, &mut rng);
    let mut verifier = square_verifier(&gens, c, 9);
    for _ in 0..2 {
        verifier.allocate_multiplier(None).unwrap();
    }
    assert_eq!(verifier.verify(&p).err().unwrap(), "circuit too large: 4 > 2");
    assert_eq!(padded_len(0), 1);
    assert_eq!(padded_len(5), 8);
    assert_eq!(padded_len(8), 8);
}

#[test]
fn proof_of_another_size_is_refused() {
    let mut rng = test_rng();
    let gens = BpGens::new(2);
    let (c, p) = square_proof(&gens, 3, &mut rng);
    let mut verifier = square_verifier(&gens, c, 9);
    verifier.allocate_multiplier(None).unwrap();
    assert_eq!(verifier.verify(&p).err().unwrap(), "IPA length mismatch: 0 L/R vs n=2");
}

// ─── gadgets ────────────────────────────────────────────────────────────────

fn alloc_bit<CS: ConstraintSystem>(cs: &mut CS, b: Option<bool>) -> ScalarVar {
    let assignment = b.map(|b| {
        let bf = Fp::from(b as u64);
        (bf, Fp::one() - bf)
    });
    let (vl, vr, vo) = cs.allocate_multiplier(assignment).unwrap();
    cs.constrain(LinearCombination::from(vl) + vr - Fp::one());
    cs.constrain(LinearCombination::from(vo));
    ScalarVar {
        lc: LinearCombination::from(vl),
        w: b.map(|b| Fp::from(b as u64)),
    }
}

#[test]
fn fp_bits_roundtrip() {
    let v = Fp::from(12345u64);
    let bits = fp_to_bits_le(&v, 64);
    let mut acc = Fp::zero();
    let mut p = Fp::one();
    for b in &bits {
        if *b {
            acc = acc + p;
        }
        p = p.double();
    }
    assert_eq!(acc, v);
}

#[test]
fn bit_decompose_gadget() {
    let mut rng = test_rng();
    let gens = BpGens::new(64);
    let v = Fp::from(42u64);

    let mut prover = Prover::new(&gens, Transcript::new(b"test"));
    let (vc, vv) = prover.commit(v, fp(&mut rng));
    let svar = ScalarVar {
        lc: LinearCombination::from(vv),
        w: Some(v),
    };
    bit_decompose(&mut prover, &svar, 8);
    let proof = prover.prove(&mut rng).unwrap();

    let mut verifier = Verifier::new(&gens, Transcript::new(b"test"));
    let vv = verifier.commit(vc);
    let svar = ScalarVar {
        lc: LinearCombination::from(vv),
        w: None,
    };
    bit_decompose(&mut verifier, &svar, 8);
    verifier.verify(&proof).unwrap();
}

#[test]
fn canonical_decomposition_of_the_largest_element() {
    let mut rng = test_rng();
    let gens = BpGens::new(512);
    let v = -Fp::one();
    let mut prover = Prover::new(&gens, Transcript::new(b"canonical"));
    let (vc, vv) = prover.commit(v, Fp::zero());
    let svar = ScalarVar { lc: LinearCombination::from(vv), w: Some(v) };
    let bits = bit_decompose_canonical(&mut prover, &svar, 255);
    assert_eq!(bits.len(), 255);
    assert!(bits[254].w.unwrap().is_one());
    let proof = prover.prove(&mut rng).unwrap();
    let mut verifier = Verifier::new(&gens, Transcript::new(b"canonical"));
    let vv = verifier.commit(vc);
    let svar = ScalarVar { lc: LinearCombination::from(vv), w: None };
    bit_decompose_canonical(&mut verifier, &svar, 255);
    verifier.verify(&proof).unwrap();
}

/// The circuit of a canonical decomposition, with bits of the caller's choice.
fn decompose_as<CS: ConstraintSystem>(cs: &mut CS, value: LinearCombination, bits: &[bool]) {
    let mut vars = Vec::new();
    let mut sum = LinearCombination::from(Fp::zero());
    let mut power = Fp::one();
    for b in bits {
        let bit = alloc_bit(cs, Some(*b));
        sum = sum + bit.lc.clone() * power;
        power = power.double();
        vars.push(bit);
    }
    cs.constrain(sum - value);
    let top = fp_to_bits_le(&-Fp::one(), bits.len());
    let (mut run, mut run_w) = (LinearCombination::from(Fp::one()), Fp::one());
    for i in (0..bits.len()).rev() {
        let w = vars[i].w.unwrap();
        let (l, r, o) = cs.allocate_multiplier(Some((run_w, w))).unwrap();
        cs.constrain(run.clone() - l);
        cs.constrain(vars[i].lc.clone() - r);
        if top[i] {
            run = LinearCombination::from(o);
            run_w = run_w * w;
        } else {
            cs.constrain(LinearCombination::from(o));
        }
    }
}

#[test]
fn decomposition_is_unique() {
    let mut rng = test_rng();
    let gens = BpGens::new(512);
    let v = Fp::from(5u64);
    let mut large = ark_bls12_381::Fr::MODULUS;
    large.add_with_carry(&ark_ff::BigInt::from(5u64));
    // 5, 5 + p and 6
    let others = [
        (fp_to_bits_le(&v, 255), true),
        (large.to_bits_le()[..255].to_vec(), false),
        (fp_to_bits_le(&Fp::from(6u64), 255), false),
    ];
    for (bits, good) in others {
        let mut prover = Prover::new(&gens, Transcript::new(b"canonical"));
        let (vc, vv) = prover.commit(v, Fp::zero());
        decompose_as(&mut prover, LinearCombination::from(vv), &bits);
        let proof = prover.prove(&mut rng).unwrap();
        let mut verifier = Verifier::new(&gens, Transcript::new(b"canonical"));
        let vv = verifier.commit(vc);
        let svar = ScalarVar { lc: LinearCombination::from(vv), w: None };
        bit_decompose_canonical(&mut verifier, &svar, 255);
        assert_eq!(verifier.verify(&proof).is_ok(), good);
    }
}

#[test]
fn add_const_gadget() {
    let mut rng = test_rng();
    let gens = BpGens::new(8);
    let p = gin_gen().times(&Fs::from(7u64));
    let q = gin_gen().times(&Fs::from(11u64));
    let expected = p.plus(&q);

    let mut prover = Prover::new(&gens, Transcript::new(b"test"));
    let out = add_const(&mut prover, &PointVar::constant(&p), &q);
    assert_eq!(out.w.unwrap(), expected);
    assert_eq!(out.x.w.unwrap(), expected.x);
    assert_eq!(out.y.w.unwrap(), expected.y);
    assert_eq_point(&mut prover, &out, &expected);
    let proof = prover.prove(&mut rng).unwrap();

    let mut verifier = Verifier::new(&gens, Transcript::new(b"test"));
    let out = add_const(&mut verifier, &PointVar::constant(&p), &q);
    assert_eq_point(&mut verifier, &out, &expected);
    verifier.verify(&proof).unwrap();
}

#[test]
fn add_var_gadget() {
    let mut rng = test_rng();
    let gens = BpGens::new(16);
    let p = gin_gen().times(&Fs::from(7u64));
    let q = gin_gen().times(&Fs::from(11u64));
    let expected = p.plus(&q);

    let mut prover = Prover::new(&gens, Transcript::new(b"test"));
    let out = add_var(
        &mut prover,
        &PointVar::constant(&p),
        &PointVar::constant(&q),
    );
    assert_eq!(out.w.unwrap(), expected);
    assert_eq_point(&mut prover, &out, &expected);
    let proof = prover.prove(&mut rng).unwrap();

    let mut verifier = Verifier::new(&gens, Transcript::new(b"test"));
    let out = add_var(
        &mut verifier,
        &PointVar::constant(&p),
        &PointVar::constant(&q),
    );
    assert_eq_point(&mut verifier, &out, &expected);
    verifier.verify(&proof).unwrap();
}

#[test]
fn on_curve_gadget() {
    let mut rng = test_rng();
    let gens = BpGens::new(8);
    let p = gin_gen().times(&Fs::from(99u64));
    let mut prover = Prover::new(&gens, Transcript::new(b"test"));
    on_curve(&mut prover, &PointVar::constant(&p));
    let proof = prover.prove(&mut rng).unwrap();
    let mut verifier = Verifier::new(&gens, Transcript::new(b"test"));
    on_curve(&mut verifier, &PointVar::constant(&p));
    verifier.verify(&proof).unwrap();
}

#[test]
fn scalar_mul_const_gadget() {
    let mut rng = test_rng();
    let gens = BpGens::new(64);
    let base = gin_gen();
    let scalar = Fs::from(7u64);
    let bits_w = fs_to_bits_le(&scalar, 8);
    let expected = base.times(&scalar);

    let mut prover = Prover::new(&gens, Transcript::new(b"test"));
    let bits: Vec<ScalarVar> = bits_w
        .iter()
        .map(|&b| alloc_bit(&mut prover, Some(b)))
        .collect();
    assert_eq!(prover.num_multipliers(), 8);
    let out = scalar_mul_const(&mut prover, &bits, &base);
    assert_eq!(prover.num_multipliers(), 8 + 10 * 3 + 3);
    assert_eq!(out.w.unwrap(), expected);
    assert_eq_point(&mut prover, &out, &expected);
    let proof = prover.prove(&mut rng).unwrap();

    let mut verifier = Verifier::new(&gens, Transcript::new(b"test"));
    let bits: Vec<ScalarVar> = (0..8).map(|_| alloc_bit(&mut verifier, None)).collect();
    let out = scalar_mul_const(&mut verifier, &bits, &base);
    assert_eq_point(&mut verifier, &out, &expected);
    verifier.verify(&proof).unwrap();
}

#[test]
fn scalar_mul_zero_works() {
    // 0·B = identity (0, 1).
    let mut rng = test_rng();
    let gens = BpGens::new(64);
    let base = gin_gen();
    let bits_w = [false; 8];
    let expected = GinAffine::zero(); // identity

    let mut prover = Prover::new(&gens, Transcript::new(b"test"));
    let bits: Vec<ScalarVar> = bits_w
        .iter()
        .map(|&b| alloc_bit(&mut prover, Some(b)))
        .collect();
    let out = scalar_mul_const(&mut prover, &bits, &base);
    assert_eq!(out.w.unwrap(), expected);
    assert_eq_point(&mut prover, &out, &expected);
    let proof = prover.prove(&mut rng).unwrap();

    let mut verifier = Verifier::new(&gens, Transcript::new(b"test"));
    let bits: Vec<ScalarVar> = (0..8).map(|_| alloc_bit(&mut verifier, None)).collect();
    let out = scalar_mul_const(&mut verifier, &bits, &base);
    assert_eq_point(&mut verifier, &out, &expected);
    verifier.verify(&proof).unwrap();
}

#[test]
fn linked_committed_variable() {
    // A committed value with γ=0 gives the commitment `V = B^v`, and the circuit can
    // use it.
    let mut rng = test_rng();
    let gens = BpGens::new(64);
    let v = fp(&mut rng);
    let two_v = v + v;

    let mut prover = Prover::new(&gens, Transcript::new(b"test"));
    let (vc, vv) = prover.commit(v, Fp::zero());
    // Constrain `2v == two_v` (a public constant).
    let svar = ScalarVar {
        lc: LinearCombination::from(vv),
        w: Some(v),
    };
    let two = svar.add(&svar);
    prover.constrain(two.lc - two_v);
    // Need ≥1 multiplier.
    prover
        .allocate_multiplier(Some((Fp::zero(), Fp::zero())))
        .unwrap();
    let proof = prover.prove(&mut rng).unwrap();

    // V = B^v exactly.
    assert_eq!(vc, gout_mul(&v));

    let mut verifier = Verifier::new(&gens, Transcript::new(b"test"));
    let vv = verifier.commit(vc);
    let svar = ScalarVar {
        lc: LinearCombination::from(vv),
        w: None,
    };
    let two = svar.add(&svar);
    verifier.constrain(two.lc - two_v);
    verifier.allocate_multiplier(None).unwrap();
    verifier.verify(&proof).unwrap();
    let _ = Variable::One;
}

// ─── the circuit of a pad ───────────────────────────────────────────────────

#[test]
fn evrf_circuit_shape_and_proof_lambda_full() {
    let lambda = DEFAULT_LAMBDA;
    let cap = gens_capacity(lambda);
    let gens = BpGens::new(cap);
    let mut rng = StdRng::seed_from_u64(0);

    let sk1 = fs(&mut rng);
    let pk1 = gin_mul(&sk1);
    let sk2 = fs(&mut rng);
    let pk2 = gin_mul(&sk2);
    let sid = SessionId([7u8; 32]);
    let beta = Beta::from_seed(b"test");
    let msg = b"hello world";
    let (out, wit) = eval_pad(&sk1, &pk2, &sid, msg, &beta);
    let pubs = public_inputs(&pk1, &pk2, &sid, msg, &beta, &out.r_commit);

    // Prove.
    let mut prover = Prover::new(&gens, Transcript::new(b"evrf-test"));
    let (r_commit, r_var) = prover.commit(wit.r, Fp::zero());
    assert_eq!(r_commit, out.r_commit);
    build_circuit(&mut prover, &pubs, r_var, Some(&wit), lambda);
    let n_mul = prover.num_multipliers();
    println!(
        "circuit size: {n_mul} mul gates, padded to {}",
        n_mul.next_power_of_two()
    );
    let proof = prover.prove(&mut rng).unwrap();

    // Verify.
    let mut verifier = Verifier::new(&gens, Transcript::new(b"evrf-test"));
    let r_var = verifier.commit(out.r_commit);
    build_circuit(&mut verifier, &pubs, r_var, None, lambda);
    verifier.verify(&proof).unwrap();

    // Tamper with R and ensure verification fails.
    let tampered = out.r_commit.plus(&gout_gen());
    let mut verifier = Verifier::new(&gens, Transcript::new(b"evrf-test"));
    let r_var = verifier.commit(tampered);
    build_circuit(&mut verifier, &pubs, r_var, None, lambda);
    assert!(verifier.verify(&proof).is_err());
}

// ─── pad proofs ─────────────────────────────────────────────────────────────

fn setup(n_peers: usize) -> (BatchPublicInputs, Vec<EvrfWitness>, SessionId) {
    let mut rng = StdRng::seed_from_u64(0);
    let sk1 = fs(&mut rng);
    let pk1 = gin_mul(&sk1);
    let sid = SessionId([3u8; 32]);
    let beta = Beta::from_seed(b"test");
    let msg = b"msg";
    let mut peers = Vec::new();
    let mut wits = Vec::new();
    for _ in 0..n_peers {
        let sk2 = fs(&mut rng);
        let pk2 = gin_mul(&sk2);
        let (out, wit) = eval_pad(&sk1, &pk2, &sid, msg, &beta);
        peers.push(EvrfPeerInputs {
            pk2,
            r_commit: out.r_commit,
        });
        wits.push(wit);
    }
    let pubs = BatchPublicInputs {
        pk1,
        h1m: h1(&sid.0, msg),
        h2m: h2(&sid.0, msg),
        beta: beta.0,
        peers,
    };
    (pubs, wits, sid)
}

#[test]
fn quick_proof_roundtrip() {
    let mut rng = StdRng::seed_from_u64(0);
    let (pubs, wits, sid) = setup(3);
    let params = ZkParams::insecure_quick();
    let proof = prove_evrf_batch(&params, &sid, &pubs, &wits, &mut rng).unwrap();
    verify_evrf_batch(&params, &sid, &pubs, &proof).unwrap();
    // Tamper R.
    let mut bad = pubs.clone();
    bad.peers[1].r_commit = bad.peers[1].r_commit.plus(&gout_gen());
    assert!(verify_evrf_batch(&params, &sid, &bad, &proof).is_err());
    // Wrong sid.
    assert!(verify_evrf_batch(&params, &SessionId([4u8; 32]), &pubs, &proof).is_err());
    // Drop a peer.
    let mut bad = pubs.clone();
    bad.peers.pop();
    assert!(verify_evrf_batch(&params, &sid, &bad, &proof).is_err());
}

#[test]
fn proof_errors_are_named() {
    let mut rng = StdRng::seed_from_u64(5);
    let (pubs, wits, sid) = setup(3);
    let params = ZkParams::insecure_quick();
    match prove_evrf_batch(&params, &sid, &pubs, &wits[..2], &mut rng) {
        Err(GoldenError::Internal(s)) => assert_eq!(s, "peers/witnesses length mismatch"),
        _ => panic!("a witness is missing"),
    }
    let quick = prove_evrf_batch(&params, &sid, &pubs, &wits, &mut rng).unwrap();
    assert!(collect_evrf_check(&params, &sid, &pubs, &quick).unwrap().is_none());
    assert!(verify_evrf_checks(&params, &[]).is_ok());
    // One recipient at most, and too few bits for these keys.
    let small = ZkParams::with_lambda(3, 0);
    assert!(small.mode == ZkMode::Full);
    assert_eq!(small.max_peers, 1);
    assert_eq!(small.gens.gens_capacity, batch_gens_capacity(3, 1));
    assert!(matches!(
        prove_evrf_batch(&small, &sid, &pubs, &wits, &mut rng),
        Err(GoldenError::TooManyPeers { got: 3, max: 1 })
    ));
    match verify_evrf_batch(&small, &sid, &pubs, &quick) {
        Err(GoldenError::Proof(s)) => assert_eq!(s, "proof/params mode mismatch"),
        _ => panic!("a proof of another mode was accepted"),
    }
    // No recipients, and a witness all the same.
    let nobody = BatchPublicInputs { peers: Vec::new(), ..pubs.clone() };
    match prove_evrf_batch(&small, &sid, &nobody, &wits[..1], &mut rng) {
        Err(GoldenError::Internal(s)) => assert_eq!(s, "peers/witnesses length mismatch"),
        _ => panic!("a recipient is missing"),
    }
    // With too few bits a proof is made, and does not verify.
    let one = BatchPublicInputs { peers: pubs.peers[..1].to_vec(), ..pubs.clone() };
    let made = prove_evrf_batch(&small, &sid, &one, &wits[..1], &mut rng).unwrap();
    match verify_evrf_batch(&small, &sid, &one, &made) {
        Err(GoldenError::Proof(s)) => assert_eq!(s, "R1CS verification failed"),
        _ => panic!("a proof of something false was accepted"),
    }
    assert!(matches!(
        verify_evrf_batch(&small, &sid, &pubs, &made),
        Err(GoldenError::TooManyPeers { got: 3, max: 1 })
    ));
    // A key that is no point of the curve is computed with.
    let mut off = one.clone();
    off.peers[0].pk2 = GinAffine::new_unchecked(Fp::from(2u64), Fp::from(3u64));
    match verify_evrf_batch(&small, &sid, &off, &made) {
        Err(GoldenError::Proof(s)) => assert_eq!(s, "R1CS verification failed"),
        _ => panic!("a proof for another key was accepted"),
    }
    assert!(prove_evrf_batch(&small, &sid, &off, &wits[..1], &mut rng).is_ok());
    // A key whose double has no coordinates.
    off.peers[0].pk2 = GinAffine::new_unchecked(Fp::from(1u64), Fp::from(1u64));
    match verify_evrf_batch(&small, &sid, &off, &made) {
        Err(GoldenError::Proof(s)) => assert_eq!(s, "point without coordinates"),
        _ => panic!("there is no circuit for this key"),
    }
    match prove_evrf_batch(&small, &sid, &off, &wits[..1], &mut rng) {
        Err(GoldenError::Proof(s)) => assert_eq!(s, "point without coordinates"),
        _ => panic!("there is no circuit for this key"),
    }
}

#[test]
fn quick_proof_for_one_recipient() {
    let mut rng = StdRng::seed_from_u64(6);
    let sid = SessionId([9u8; 32]);
    let beta = Beta::from_seed(b"one");
    let sk1 = fs(&mut rng);
    let pk2 = gin_mul(&fs(&mut rng));
    let (out, wit) = eval_pad(&sk1, &pk2, &sid, b"m", &beta);
    let pubs = public_inputs(&gin_mul(&sk1), &pk2, &sid, b"m", &beta, &out.r_commit);
    let params = ZkParams::insecure_quick();
    let proof = prove_evrf(&params, &sid, &pubs, &wit, &mut rng).unwrap();
    assert!(matches!(&proof, EvrfProof::InsecureQuick(ps) if ps.len() == 1));
    verify_evrf(&params, &sid, &pubs, &proof).unwrap();
    let mut bad = pubs.clone();
    bad.pk1 = gin_mul(&fs(&mut rng));
    assert!(verify_evrf(&params, &sid, &bad, &proof).is_err());
}
