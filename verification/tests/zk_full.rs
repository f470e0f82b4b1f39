//! Sessions with full proofs.
use ark_ff::{BigInteger, PrimeField};
use ark_std::UniformRand;
use golden_nidkg::curves::{gin_mul, gout_gen, Fp, Fs};
use golden_nidkg::dkg::{
    create_dealing, derive_session_id, verify_dealing, verify_dealings, DkgConfig,
};
use golden_nidkg::errors::GoldenError;
use golden_nidkg::evrf::{eval_pad, public_inputs, Beta, SessionId};
use golden_nidkg::zk::evrf_proof::{prove_evrf, verify_evrf};
use golden_nidkg::schnorr::RegisteredKey;
use golden_nidkg::zk::{EvrfProof, ZkParams};
use rand::{rngs::StdRng, SeedableRng};
use std::collections::BTreeMap;

fn fs(rng: &mut StdRng) -> Fs {
    Fs::from_le_bytes_mod_order(&ark_ed_on_bls12_381::Fr::rand(rng).into_bigint().to_bytes_le())
}

/// A valid proof does not verify against another `R`, other keys or another session.
#[test]
fn full_zk_proof_binds_r() {
    let mut rng = StdRng::seed_from_u64(1);
    let zk = ZkParams::full(1);
    let sk1 = fs(&mut rng);
    let pk1 = gin_mul(&sk1);
    let sk2 = fs(&mut rng);
    let pk2 = gin_mul(&sk2);
    let sid = SessionId([1u8; 32]);
    let beta = Beta::from_seed(b"test");
    let (out, wit) = eval_pad(&sk1, &pk2, &sid, b"msg", &beta);
    let pubs = public_inputs(&pk1, &pk2, &sid, b"msg", &beta, &out.r_commit);
    let proof = prove_evrf(&zk, &sid, &pubs, &wit, &mut rng).unwrap();
    verify_evrf(&zk, &sid, &pubs, &proof).unwrap();
    // Tamper `R`.
    let mut bad = pubs.clone();
    bad.r_commit = bad.r_commit.plus(&gout_gen());
    assert!(verify_evrf(&zk, &sid, &bad, &proof).is_err());
    // Wrong sender PK.
    let mut bad = pubs.clone();
    bad.pk1 = gin_mul(&fs(&mut rng));
    assert!(verify_evrf(&zk, &sid, &bad, &proof).is_err());
    // Wrong recipient PK.
    let mut bad = pubs.clone();
    bad.pk2 = gin_mul(&fs(&mut rng));
    assert!(verify_evrf(&zk, &sid, &bad, &proof).is_err());
    // Wrong sid.
    assert!(verify_evrf(&zk, &SessionId([2u8; 32]), &pubs, &proof).is_err());
}

/// A dealing with a full proof verifies, on its own and in a batch, and no longer does
/// when its ciphertext or its proof is changed.
#[test]
fn full_dealing_verifies() {
    let mut rng = StdRng::seed_from_u64(0xdeadbeef);
    let (rk1, sk1) = RegisteredKey::fresh(1, &mut rng);
    let (rk2, sk2) = RegisteredKey::fresh(2, &mut rng);
    let pki = BTreeMap::from([(1, rk1.pk), (2, rk2.pk)]);
    let cfg = DkgConfig::new(2, 2, derive_session_id(b"zk-full", 2, 2, &pki));
    let zk = ZkParams::full(1);
    let (d, _) = create_dealing(&rk1, &sk1, &cfg, &pki, &zk, &mut rng, None).unwrap();
    verify_dealing(&d, &cfg, &pki, &zk, false).unwrap();
    let mut dealings = BTreeMap::from([(1, d.clone())]);
    verify_dealings(&dealings, &cfg, &pki, &zk, false).unwrap();
    // The recipient's pad is the one of the dealing.
    let (pad, _) = eval_pad(&sk2, &rk1.pk, &cfg.sid, &d.msg, &cfg.beta);
    assert_eq!(pad.r_commit, d.ciphertexts[&2].r_commit);
    // Tampered ciphertext: fails at the commitments.
    let mut bad = d.clone();
    let ct = bad.ciphertexts.get_mut(&2).unwrap();
    ct.z = ct.z + Fp::from(1u64);
    assert!(matches!(
        verify_dealing(&bad, &cfg, &pki, &zk, false),
        Err(GoldenError::CiphertextCheckFailed {
            dealer: 1,
            recipient: 2
        })
    ));
    // Tampered proof: the batch names the dealer.
    if let EvrfProof::Full(p) = &mut dealings.get_mut(&1).unwrap().proof {
        p.t_x = p.t_x + Fp::from(1u64);
    }
    match verify_dealings(&dealings, &cfg, &pki, &zk, false) {
        Err(GoldenError::EvrfProofFailed { dealer, reason }) => {
            assert_eq!(dealer, 1);
            assert_eq!(reason, "R1CS verification failed");
        }
        _ => panic!("a bad proof was accepted"),
    }
}
