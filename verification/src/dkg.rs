//! The distributed key generation.
//!
//! ```text
//! Dealing (each party i):
//!   ω_i ← Z_p
//!   {x_{ij}}, C_i = (A_{i,0}…A_{i,t-1}) ← Share(ω_i, n, t)
//!   msg_i ← random bytes
//!   for j ≠ i:
//!     (r_{ij}, R_{ij}) ← pad of sk_i, PK_j and msg_i
//!     z_{ij} ← r_{ij} + x_{ij}
//!   broadcast (msg_i, C_i, {(R_{ij}, z_{ij})}, π_i),  keep x_{ii}
//!
//! Verification (anyone, of the dealing of j):
//!   |C_j| = t, all points in the prime-order group
//!   for k ≠ j:
//!     g_out^{z_{jk}} == R_{jk} · X_{jk}   where X_{jk} = ∏_l A_{j,l}^{k^l}
//!   π_j shows that the R_{jk} are the pad commitments
//!
//! Completion (party i, with all dealings verified):
//!   for j ≠ i:  x_{ji} ← z_{ji} − r_{ji}
//!   sk_i ← ∑_j x_{ji},  PK ← ∏_j A_{j,0},  PK_l ← ∏_j X_{jl}
//! ```
use crate::algebra::{
    cong, lemma_cong_add, lemma_cong_mod, lemma_cong_sub, lemma_mod_reduced, lemma_poly_eval_cong,
    lemma_poly_eval_cons, lemma_sigma_add, lemma_sigma_eq, lemma_sigma_zero, poly_eval,
};
use crate::curves::{
    gout_identity, gout_in_group, gout_is_pow, gout_log, gout_logs, gout_msm, gout_mul, gout_pow,
    gout_sum, gout_sum_is, gouts, gouts_in_group, is_in_prime_subgroup, lemma_gout_eq,
    lemma_gout_log, Fp, Fs, GinAffine, GoutAffine, GoutPoint,
};
use crate::errors::{append_decimal, decimal, GoldenError, GoldenResult};
use crate::evrf::{
    has_pad, pad_made, pad_value, try_eval_pad, Beta, EvrfWitness, PadOutput, SessionId,
};
use crate::field::{fp_order, lemma_fp_order, lemma_fp_range};
use crate::hash_to_curve::{field_hash, h1_point, h2_point, try_h1, try_h2};
use crate::maps::{lemma_u32_keys, lists, map_keys, ordered, others};
use crate::schnorr::RegisteredKey;
use crate::transcript::{
    ev_bytes, ev_gin, ev_u64, transcript_challenge, transcript_log, TranscriptEvent, TranscriptExt,
};
use crate::vss::{horner_points, share_commitment_proj};
use crate::zk::evrf_circuit::EvrfPeerInputs;
use crate::zk::bp_laws::{
    law_batch_of_passing_checks_passes, lemma_combined_in_group, lemma_empty_vanishes,
};
use crate::zk::bp_protocol::{
    batch_weights, check_bases, check_fits, check_scalars, check_vanishes, combined_check,
    CheckView,
};
use crate::zk::bp_r1cs::{check_views, VerificationCheck};
use crate::zk::evrf_proof::{
    accepted, circuit_binds, collect_evrf_check, exponents_accepted, failed, outcome, params_ok,
    proof_in_group, rounds_complete, verify_evrf_batch, verify_evrf_checks, BatchPublicInputs,
    EvrfProof, Failure, InputsView, Outcome, ZkParams,
};
use crate::zk::generators::BpGens;
pub use crate::dealer::{create_dealing, refresh_dealing};
use merlin::Transcript;
use std::collections::BTreeMap;
use vstd::arithmetic::power::pow;
use vstd::prelude::*;
use vstd::string::{is_ascii_spec_bytes, StringExecFns, StringSliceAdditionalSpecFns};

verus! {

/// What all parties of a session agree on.
#[derive(Clone, Debug)]
pub struct DkgConfig {
    pub n: u32,
    pub t: u32,
    pub sid: SessionId,
    pub beta: Beta,
}

impl DkgConfig {
    /// `n` parties, any `t` of whom hold the secret.
    pub fn new(n: u32, t: u32, sid: SessionId) -> (r: Self)
        requires
            1 <= t <= n,
        ensures
            r.n == n,
            r.t == t,
            r.sid == sid,
            r.beta@ == field_hash("beta".spec_bytes(), "golden-nidkg/beta/v1".spec_bytes()),
    {
        DkgConfig { n, t, sid, beta: Beta::from_seed("golden-nidkg/beta/v1".as_bytes()) }
    }
}

/// `(R_{ij}, z_{ij})`: an encrypted share.
#[derive(Clone, Copy, Debug)]
pub struct ShareCiphertext {
    pub r_commit: GoutAffine,
    pub z: Fp,
}

/// What a dealer broadcasts. The proof covers all recipients, in ascending order.
#[derive(Clone, Debug)]
pub struct Dealing {
    pub dealer: u32,
    pub sid: SessionId,
    pub msg: [u8; 32],
    pub commitment: Vec<GoutAffine>,
    pub ciphertexts: BTreeMap<u32, ShareCiphertext>,
    pub proof: EvrfProof,
}

/// What a dealer keeps: its own share `f_i(i)`.
#[derive(Clone)]
pub struct DealingPrivate {
    pub own_share: Fp,
}

/// The result of a session for one party.
#[derive(Clone, Debug, PartialEq)]
pub struct DkgOutput {
    pub public_key: GoutAffine,
    pub public_key_shares: BTreeMap<u32, GoutAffine>,
    pub secret_share: Fp,
}

// ─── the structure of a dealing ─────────────────────────────────────────────

/// The exponents of the commitment of a dealing: the coefficients of the dealer's
/// polynomial.
pub open spec fn dealt_poly(d: Dealing) -> Seq<int> {
    gout_logs(gouts(d.commitment@))
}

/// `z_{jk} = f_j(k) + r_{jk}`, where `r_{jk}` is the exponent of `R_{jk}`.
pub open spec fn ciphertext_matches(d: Dealing, k: u32) -> bool {
    let ct = d.ciphertexts@[k];
    ct.z@ == (poly_eval(dealt_poly(d), k as int) + gout_log(ct.r_commit@)) % fp_order()
}

/// What is wrong with the ciphertext for party `k`.
pub open spec fn recipient_error(d: Dealing, k: u32) -> Option<GoldenError> {
    if k == d.dealer {
        None
    } else if !d.ciphertexts@.contains_key(k) {
        Some(GoldenError::MissingCiphertext { dealer: d.dealer, recipient: k })
    } else if !gout_in_group(d.ciphertexts@[k].r_commit@) {
        Some(GoldenError::ElementNotInSubgroup { dealer: d.dealer })
    } else if !ciphertext_matches(d, k) {
        Some(GoldenError::CiphertextCheckFailed { dealer: d.dealer, recipient: k })
    } else {
        None
    }
}

/// The first ciphertext that something is wrong with, in the order of `ks`.
pub open spec fn first_recipient_error(d: Dealing, ks: Seq<u32>) -> Option<GoldenError>
    decreases ks.len(),
{
    if ks.len() == 0 {
        None
    } else {
        match recipient_error(d, ks[0]) {
            Some(e) => Some(e),
            None => first_recipient_error(d, ks.drop_first()),
        }
    }
}

/// The first ciphertext, in the order of `ks`, that is for no recipient.
pub open spec fn first_unexpected(
    dealer: u32,
    ks: Seq<u32>,
    pki: Map<u32, GinAffine>,
) -> Option<GoldenError>
    decreases ks.len(),
{
    if ks.len() == 0 {
        None
    } else if ks[0] == dealer || !pki.contains_key(ks[0]) {
        Some(GoldenError::UnexpectedCiphertext { dealer, recipient: ks[0] })
    } else {
        first_unexpected(dealer, ks.drop_first(), pki)
    }
}

/// What is wrong with the structure of a dealing: the first of the conditions that
/// does not hold.
pub open spec fn structure_error(
    d: Dealing,
    cfg: DkgConfig,
    pki: Map<u32, GinAffine>,
    expect_zero_secret: bool,
) -> Option<GoldenError> {
    let j = d.dealer;
    if d.sid@ != cfg.sid@ {
        Some(GoldenError::SessionMismatch { dealer: j })
    } else if d.commitment@.len() != cfg.t {
        Some(
            GoldenError::WrongCommitmentLength {
                dealer: j,
                got: d.commitment@.len() as usize,
                expected: cfg.t as usize,
            },
        )
    } else if expect_zero_secret && d.commitment@[0]@ != gout_identity() {
        Some(GoldenError::NonZeroRefreshSecret { dealer: j })
    } else if !gouts_in_group(gouts(d.commitment@)) {
        Some(GoldenError::ElementNotInSubgroup { dealer: j })
    } else if !pki.contains_key(j) {
        Some(GoldenError::PartyNotInPki { id: j })
    } else {
        match first_recipient_error(d, ordered(pki.dom())) {
            Some(e) => Some(e),
            None => first_unexpected(j, ordered(d.ciphertexts@.dom()), pki),
        }
    }
}

/// Keys and pad commitments of the recipients `ks`.
pub open spec fn recipients(
    cts: Map<u32, ShareCiphertext>,
    pki: Map<u32, GinAffine>,
    ks: Seq<u32>,
) -> Seq<EvrfPeerInputs> {
    Seq::new(
        ks.len(),
        |i: int| EvrfPeerInputs { pk2: pki[ks[i]], r_commit: cts[ks[i]].r_commit },
    )
}

/// Both hashes of the message of a dealing exist.
pub open spec fn hashes_exist(cfg: DkgConfig, d: Dealing) -> bool {
    h1_point(cfg.sid@, d.msg@) is Some && h2_point(cfg.sid@, d.msg@) is Some
}

/// The recipients of a dealing: all registered parties but the dealer.
pub open spec fn recipient_ids(dealer: u32, pki: Map<u32, GinAffine>) -> Seq<u32> {
    others(ordered(pki.dom()), dealer)
}

/// The public inputs of the proof of a dealing.
pub open spec fn dealing_inputs(
    d: Dealing,
    cfg: DkgConfig,
    pki: Map<u32, GinAffine>,
) -> InputsView {
    InputsView {
        pk1: pki[d.dealer]@,
        h1m: h1_point(cfg.sid@, d.msg@)->Some_0,
        h2m: h2_point(cfg.sid@, d.msg@)->Some_0,
        beta: cfg.beta@,
        peers: recipients(d.ciphertexts@, pki, recipient_ids(d.dealer, pki)),
    }
}

/// Whether all points of the commitment are in the prime-order group.
fn commitment_in_group(points: &[GoutAffine]) -> (r: bool)
    ensures
        r == gouts_in_group(gouts(points@)),
{
    let mut i: usize = 0;
    while i < points.len()
        invariant
            i <= points@.len(),
            forall|k: int| 0 <= k < i ==> gout_in_group(#[trigger] gouts(points@)[k]),
        decreases points@.len() - i,
    {
        if !is_in_prime_subgroup(&points[i]) {
            assert(!gout_in_group(gouts(points@)[i as int]));
            return false;
        }
        i = i + 1;
    }
    true
}

/// The check of the ciphertext for party `k`.
fn check_recipient(d: &Dealing, k: u32) -> (r: Result<(), GoldenError>)
    requires
        d.commitment@.len() > 0,
        gouts_in_group(gouts(d.commitment@)),
    ensures
        match recipient_error(*d, k) {
            Some(e) => r == Err::<(), GoldenError>(e),
            None => r is Ok,
        },
{
    proof {
        lemma_u32_keys();
    }
    if k == d.dealer {
        return Ok(());
    }
    let ct = match d.ciphertexts.get(&k) {
        Some(ct) => ct,
        None => {
            return Err(GoldenError::MissingCiphertext { dealer: d.dealer, recipient: k });
        },
    };
    if !is_in_prime_subgroup(&ct.r_commit) {
        return Err(GoldenError::ElementNotInSubgroup { dealer: d.dealer });
    }
    let x_jk = share_commitment_proj(d.commitment.as_slice(), k);
    let lhs = gout_mul(&ct.z);
    let rhs = x_jk.plus(&ct.r_commit);
    proof {
        let m = fp_order();
        lemma_fp_order();
        let e = poly_eval(dealt_poly(*d), k as int);
        let lr = gout_log(ct.r_commit@);
        lemma_gout_log(x_jk@, e % m);
        lemma_gout_log(rhs@, (e % m + lr) % m);
        lemma_gout_log(lhs@, ct.z@);
        lemma_gout_eq(lhs@, rhs@);
        lemma_cong_mod(e, m);
        lemma_cong_add(e % m, e, lr, lr, m);
    }
    if lhs != rhs {
        return Err(GoldenError::CiphertextCheckFailed { dealer: d.dealer, recipient: k });
    }
    Ok(())
}

/// No party lacks a ciphertext that is right, if nothing is wrong with any of them.
pub proof fn lemma_recipients_ok(d: Dealing, ks: Seq<u32>)
    requires
        first_recipient_error(d, ks) is None,
    ensures
        forall|i: int| 0 <= i < ks.len() ==> recipient_error(d, #[trigger] ks[i]) is None,
    decreases ks.len(),
{
    if ks.len() > 0 {
        let rest = ks.drop_first();
        lemma_recipients_ok(d, rest);
        assert forall|i: int| 0 <= i < ks.len() implies recipient_error(
            d,
            #[trigger] ks[i],
        ) is None by {
            if i > 0 {
                assert(rest[i - 1] == ks[i]);
            }
        }
    }
}

/// Checks the ciphertexts of all recipients, and collects the recipients.
fn check_recipients(d: &Dealing, pki: &BTreeMap<u32, GinAffine>) -> (r: GoldenResult<
    Vec<EvrfPeerInputs>,
>)
    requires
        d.commitment@.len() > 0,
        gouts_in_group(gouts(d.commitment@)),
    ensures
        match first_recipient_error(*d, ordered(pki@.dom())) {
            Some(e) => r == Err::<Vec<EvrfPeerInputs>, GoldenError>(e),
            None => r matches Ok(peers) && peers@ == recipients(
                d.ciphertexts@,
                pki@,
                recipient_ids(d.dealer, pki@),
            ),
        },
{
    proof {
        lemma_u32_keys();
    }
    let keys = map_keys(pki);
    let ghost ks = keys@;
    let mut peers: Vec<EvrfPeerInputs> = Vec::new();
    let mut i: usize = 0;
    proof {
        assert(ks.take(0) =~= Seq::<u32>::empty());
        assert(ks.skip(0) =~= ks);
        assert(peers@ =~= recipients(d.ciphertexts@, pki@, others(ks.take(0), d.dealer)));
    }
    while i < keys.len()
        invariant
            i <= ks.len(),
            ks == keys@,
            ks == ordered(pki@.dom()),
            lists(ks, pki@.dom()),
            d.commitment@.len() > 0,
            gouts_in_group(gouts(d.commitment@)),
            first_recipient_error(*d, ks) == first_recipient_error(*d, ks.skip(i as int)),
            peers@ == recipients(d.ciphertexts@, pki@, others(ks.take(i as int), d.dealer)),
        decreases ks.len() - i,
    {
        let k = keys[i];
        proof {
            lemma_u32_keys();
            assert(ks.skip(i as int)[0] == k);
            assert(ks.skip(i as int).drop_first() =~= ks.skip(i + 1));
            assert(ks.take(i + 1).drop_last() =~= ks.take(i as int));
            assert(ks.take(i + 1).last() == k);
            assert(ks.contains(k));
            assert(pki@.dom().contains(k));
        }
        match check_recipient(d, k) {
            Ok(_) => {},
            Err(e) => {
                return Err(e);
            },
        }
        if k != d.dealer {
            if let Some(pk) = pki.get(&k) {
                if let Some(ct) = d.ciphertexts.get(&k) {
                    peers.push(EvrfPeerInputs { pk2: *pk, r_commit: ct.r_commit });
                }
            }
            proof {
                assert(peers@ =~= recipients(d.ciphertexts@, pki@, others(ks.take(i + 1), d.dealer)));
            }
        }
        i = i + 1;
    }
    assert(ks.take(i as int) =~= ks);
    Ok(peers)
}

/// Looks for ciphertexts that are for no recipient.
fn check_unexpected(d: &Dealing, pki: &BTreeMap<u32, GinAffine>) -> (r: Result<(), GoldenError>)
    ensures
        match first_unexpected(d.dealer, ordered(d.ciphertexts@.dom()), pki@) {
            Some(e) => r == Err::<(), GoldenError>(e),
            None => r is Ok,
        },
{
    proof {
        lemma_u32_keys();
    }
    let keys = map_keys(&d.ciphertexts);
    let ghost ks = keys@;
    let mut i: usize = 0;
    assert(ks.skip(0) =~= ks);
    while i < keys.len()
        invariant
            i <= ks.len(),
            ks == keys@,
            ks == ordered(d.ciphertexts@.dom()),
            first_unexpected(d.dealer, ks, pki@) == first_unexpected(
                d.dealer,
                ks.skip(i as int),
                pki@,
            ),
        decreases ks.len() - i,
    {
        let k = keys[i];
        proof {
            lemma_u32_keys();
            assert(ks.skip(i as int)[0] == k);
            assert(ks.skip(i as int).drop_first() =~= ks.skip(i + 1));
        }
        if k == d.dealer || !pki.contains_key(&k) {
            return Err(GoldenError::UnexpectedCiphertext { dealer: d.dealer, recipient: k });
        }
        i = i + 1;
    }
    Ok(())
}

/// What is known of a result of [`check_dealing_structure`].
pub open spec fn structure_checked(
    d: Dealing,
    cfg: DkgConfig,
    pki: Map<u32, GinAffine>,
    expect_zero_secret: bool,
    res: GoldenResult<BatchPublicInputs>,
) -> bool {
    match structure_error(d, cfg, pki, expect_zero_secret) {
        Some(e) => res == Err::<BatchPublicInputs, GoldenError>(e),
        None => if hashes_exist(cfg, d) {
            res matches Ok(pubs) && pubs@ == dealing_inputs(d, cfg, pki)
        } else {
            res matches Err(GoldenError::Internal(s)) && s@ == "hash to curve failed"@
        },
    }
}

/// The checks of a dealing that need no proof; gives the public inputs of the proof.
fn check_dealing_structure(
    dealing: &Dealing,
    cfg: &DkgConfig,
    pki: &BTreeMap<u32, GinAffine>,
    expect_zero_secret: bool,
) -> (res: GoldenResult<BatchPublicInputs>)
    requires
        cfg.t >= 1,
    ensures
        structure_checked(*dealing, *cfg, pki@, expect_zero_secret, res),
{
    proof {
        lemma_u32_keys();
    }
    let j = dealing.dealer;
    if dealing.sid != cfg.sid {
        return Err(GoldenError::SessionMismatch { dealer: j });
    }
    if dealing.commitment.len() != cfg.t as usize {
        return Err(
            GoldenError::WrongCommitmentLength {
                dealer: j,
                got: dealing.commitment.len(),
                expected: cfg.t as usize,
            },
        );
    }
    if expect_zero_secret && !dealing.commitment[0].is_zero() {
        return Err(GoldenError::NonZeroRefreshSecret { dealer: j });
    }
    if !commitment_in_group(dealing.commitment.as_slice()) {
        return Err(GoldenError::ElementNotInSubgroup { dealer: j });
    }
    let pk_j = match pki.get(&j) {
        Some(pk) => *pk,
        None => {
            return Err(GoldenError::PartyNotInPki { id: j });
        },
    };
    let peers = match check_recipients(dealing, pki) {
        Ok(peers) => peers,
        Err(e) => {
            return Err(e);
        },
    };
    match check_unexpected(dealing, pki) {
        Ok(_) => {},
        Err(e) => {
            return Err(e);
        },
    }
    match (try_h1(&cfg.sid.0, &dealing.msg), try_h2(&cfg.sid.0, &dealing.msg)) {
        (Some(h1m), Some(h2m)) => {
            let pubs = BatchPublicInputs { pk1: pk_j, h1m, h2m, beta: cfg.beta.0, peers };
            assert(pubs@ =~= dealing_inputs(*dealing, *cfg, pki@));
            Ok(pubs)
        },
        _ => Err(GoldenError::Internal(String::from_str("hash to curve failed"))),
    }
}

// ─── verification ───────────────────────────────────────────────────────────

/// The text of the error of a failure.
pub open spec fn failure_text(zk: ZkParams, pubs: InputsView, f: Failure) -> Seq<char> {
    match f {
        Failure::TooManyPeers => GoldenError::TooManyPeers {
            got: pubs.peers.len() as usize,
            max: zk.max_peers,
        }.text(),
        Failure::Internal(text) => "internal: "@ + text,
        Failure::Proof(text) => "Bulletproofs proof error: "@ + text,
    }
}

/// The error says that the proof of `dealer` failed, for the given reason.
pub open spec fn blames(e: GoldenError, dealer: u32, text: Seq<char>) -> bool {
    e matches GoldenError::EvrfProofFailed { dealer: d, reason } && d == dealer && reason@ == text
}

fn evrf_error(dealer: u32, e: &GoldenError) -> (r: GoldenError)
    ensures
        blames(r, dealer, e.text()),
{
    GoldenError::EvrfProofFailed { dealer, reason: e.message() }
}

/// What the proof of a dealing comes to.
pub open spec fn dealing_outcome(
    d: Dealing,
    cfg: DkgConfig,
    pki: Map<u32, GinAffine>,
    zk: ZkParams,
) -> Outcome {
    outcome(zk, cfg.sid@, dealing_inputs(d, cfg, pki), d.proof)
}

/// The reason that a proof does not verify for.
pub open spec fn rejection_text(
    d: Dealing,
    cfg: DkgConfig,
    pki: Map<u32, GinAffine>,
    zk: ZkParams,
) -> Seq<char> {
    match dealing_outcome(d, cfg, pki, zk) {
        Outcome::Failed(f) => failure_text(zk, dealing_inputs(d, cfg, pki), f),
        _ => "Bulletproofs proof error: "@ + "R1CS verification failed"@,
    }
}

/// What is known of a result of [`verify_dealing`].
pub open spec fn dealing_verified(
    d: Dealing,
    cfg: DkgConfig,
    pki: Map<u32, GinAffine>,
    zk: ZkParams,
    expect_zero_secret: bool,
    res: GoldenResult<()>,
) -> bool {
    match structure_error(d, cfg, pki, expect_zero_secret) {
        Some(e) => res == Err::<(), GoldenError>(e),
        None => if hashes_exist(cfg, d) {
            &&& res is Ok <==> accepted(zk, cfg.sid@, dealing_inputs(d, cfg, pki), d.proof)
            &&& res matches Err(e) ==> blames(e, d.dealer, rejection_text(d, cfg, pki, zk))
            &&& proof_in_group(zk, cfg.sid@, dealing_inputs(d, cfg, pki), d.proof) ==> (res is Ok
                <==> exponents_accepted(zk, cfg.sid@, dealing_inputs(d, cfg, pki), d.proof))
        } else {
            res matches Err(GoldenError::Internal(s)) && s@ == "hash to curve failed"@
        },
    }
}

/// Verifies a dealing. Anyone can do so. Of a refresh dealing,
/// `expect_zero_secret` asks that the secret is zero.
pub fn verify_dealing(
    dealing: &Dealing,
    cfg: &DkgConfig,
    pki: &BTreeMap<u32, GinAffine>,
    zk: &ZkParams,
    expect_zero_secret: bool,
) -> (res: GoldenResult<()>)
    requires
        cfg.t >= 1,
        params_ok(*zk),
        zk.mode is Full ==> rounds_complete(
            *zk,
            recipient_ids(dealing.dealer, pki@).len(),
            dealing.proof,
        ),
    ensures
        dealing_verified(*dealing, *cfg, pki@, *zk, expect_zero_secret, res),
        zk.mode is Full && res is Ok ==> circuit_binds(
            dealing_inputs(*dealing, *cfg, pki@),
            zk.lambda as nat,
        ),
{
    let pubs = match check_dealing_structure(dealing, cfg, pki, expect_zero_secret) {
        Ok(pubs) => pubs,
        Err(e) => {
            return Err(e);
        },
    };
    match verify_evrf_batch(zk, &cfg.sid, &pubs, &dealing.proof) {
        Ok(_) => Ok(()),
        Err(e) => Err(evrf_error(dealing.dealer, &e)),
    }
}

/// A dealing fails before its check is made up.
pub open spec fn collect_fails(
    d: Dealing,
    cfg: DkgConfig,
    pki: Map<u32, GinAffine>,
    zk: ZkParams,
    expect_zero_secret: bool,
) -> bool {
    ||| structure_error(d, cfg, pki, expect_zero_secret) is Some
    ||| !hashes_exist(cfg, d)
    ||| dealing_outcome(d, cfg, pki, zk) is Failed
}

/// The error of a dealing that fails before its check is made up.
pub open spec fn collect_error(
    d: Dealing,
    cfg: DkgConfig,
    pki: Map<u32, GinAffine>,
    zk: ZkParams,
    expect_zero_secret: bool,
    e: GoldenError,
) -> bool {
    match structure_error(d, cfg, pki, expect_zero_secret) {
        Some(e2) => e == e2,
        None => if hashes_exist(cfg, d) {
            blames(e, d.dealer, rejection_text(d, cfg, pki, zk))
        } else {
            e matches GoldenError::Internal(s) && s@ == "hash to curve failed"@
        },
    }
}

/// The structure of a dealing, and what is left to check of its proof.
fn collect_dealing(
    d: &Dealing,
    cfg: &DkgConfig,
    pki: &BTreeMap<u32, GinAffine>,
    zk: &ZkParams,
    expect_zero_secret: bool,
) -> (res: GoldenResult<Option<VerificationCheck>>)
    requires
        cfg.t >= 1,
        params_ok(*zk),
        zk.mode is Full ==> rounds_complete(*zk, recipient_ids(d.dealer, pki@).len(), d.proof),
    ensures
        match res {
            Err(e) => collect_fails(*d, *cfg, pki@, *zk, expect_zero_secret) && collect_error(
                *d,
                *cfg,
                pki@,
                *zk,
                expect_zero_secret,
                e,
            ),
            Ok(c) => {
                &&& !collect_fails(*d, *cfg, pki@, *zk, expect_zero_secret)
                &&& match (c, dealing_outcome(*d, *cfg, pki@, *zk)) {
                    (Some(check), Outcome::Pending(v)) => check@ == v && check_fits(*zk.gens, v)
                        && v.digest.len() == 32,
                    (None, Outcome::Passed) => true,
                    _ => false,
                }
                &&& zk.mode is Full ==> circuit_binds(
                    dealing_inputs(*d, *cfg, pki@),
                    zk.lambda as nat,
                )
            },
        },
{
    let pubs = match check_dealing_structure(d, cfg, pki, expect_zero_secret) {
        Ok(pubs) => pubs,
        Err(e) => {
            return Err(e);
        },
    };
    match collect_evrf_check(zk, &cfg.sid, &pubs, &d.proof) {
        Ok(c) => Ok(c),
        Err(e) => Err(evrf_error(d.dealer, &e)),
    }
}

/// The dealings of a map, in the order of its keys.
pub open spec fn dealing_list(dealings: Map<u32, Dealing>) -> Seq<Dealing> {
    let ids = ordered(dealings.dom());
    Seq::new(ids.len(), |i: int| dealings[ids[i]])
}

/// The checks that are left of dealings, with the dealers.
pub open spec fn pending_checks(
    ds: Seq<Dealing>,
    cfg: DkgConfig,
    pki: Map<u32, GinAffine>,
    zk: ZkParams,
) -> Seq<(u32, CheckView)>
    decreases ds.len(),
{
    if ds.len() == 0 {
        Seq::empty()
    } else {
        let rest = pending_checks(ds.drop_last(), cfg, pki, zk);
        match dealing_outcome(ds.last(), cfg, pki, zk) {
            Outcome::Pending(v) => rest.push((ds.last().dealer, v)),
            _ => rest,
        }
    }
}

/// The checks without the dealers.
pub open spec fn only_checks(ps: Seq<(u32, CheckView)>) -> Seq<CheckView> {
    Seq::new(ps.len(), |i: int| ps[i].1)
}

/// The product of the check is the identity.
pub open spec fn check_passes(gens: BpGens, v: CheckView) -> bool {
    gout_msm(check_bases(gens, v), check_scalars(v)) == gout_identity()
}

/// The first dealer whose check does not pass.
pub open spec fn first_offender(gens: BpGens, ps: Seq<(u32, CheckView)>) -> Option<u32>
    decreases ps.len(),
{
    if ps.len() == 0 {
        None
    } else if !check_passes(gens, ps[0].1) {
        Some(ps[0].0)
    } else {
        first_offender(gens, ps.drop_first())
    }
}

/// What is known of a result of [`verify_dealings`] when every dealing has come to
/// its check.
pub open spec fn batch_result(
    zk: ZkParams,
    ps: Seq<(u32, CheckView)>,
    res: GoldenResult<()>,
) -> bool {
    let vs = only_checks(ps);
    let v = combined_check(vs, batch_weights(vs));
    if vs.len() == 0 || check_passes(*zk.gens, v) {
        res is Ok
    } else {
        match first_offender(*zk.gens, ps) {
            Some(dealer) => res matches Err(e) && blames(e, dealer, "R1CS verification failed"@),
            None => res matches Err(GoldenError::Internal(s)) && s@
                == "batch verification failed but every individual check passed"@,
        }
    }
}

/// The points of all checks, and the generators, are in the prime-order group.
pub open spec fn checks_in_group(gens: BpGens, ps: Seq<(u32, CheckView)>) -> bool {
    gens.in_group() && forall|i: int|
        0 <= i < ps.len() ==> gouts_in_group((#[trigger] ps[i]).1.points)
}

/// The circuit of every dealing binds the pads.
pub open spec fn all_bound(
    ds: Seq<Dealing>,
    cfg: DkgConfig,
    pki: Map<u32, GinAffine>,
    lambda: nat,
) -> bool {
    forall|i: int|
        0 <= i < ds.len() ==> circuit_binds(dealing_inputs(#[trigger] ds[i], cfg, pki), lambda)
}

/// The checks of all dealings, with their dealers; or the error of the first dealing
/// that has none.
fn collect_dealings(
    dealings: &BTreeMap<u32, Dealing>,
    cfg: &DkgConfig,
    pki: &BTreeMap<u32, GinAffine>,
    zk: &ZkParams,
    expect_zero_secret: bool,
) -> (res: GoldenResult<(Vec<u32>, Vec<VerificationCheck>)>)
    requires
        cfg.t >= 1,
        params_ok(*zk),
        zk.mode is Full ==> forall|k: u32| #[trigger]
            dealings@.contains_key(k) ==> rounds_complete(
                *zk,
                recipient_ids(dealings@[k].dealer, pki@).len(),
                dealings@[k].proof,
            ),
    ensures
        match res {
            Err(e) => exists|i: int| #[trigger]
                first_failure(dealing_list(dealings@), *cfg, pki@, *zk, expect_zero_secret, i)
                    && collect_error(
                    dealing_list(dealings@)[i],
                    *cfg,
                    pki@,
                    *zk,
                    expect_zero_secret,
                    e,
                ),
            Ok(r) => {
                let ps = pending_checks(dealing_list(dealings@), *cfg, pki@, *zk);
                &&& none_fails(dealing_list(dealings@), *cfg, pki@, *zk, expect_zero_secret)
                &&& r.0@.len() == ps.len()
                &&& r.1@.len() == ps.len()
                &&& check_views(r.1@) == only_checks(ps)
                &&& forall|i: int|
                    0 <= i < ps.len() ==> (#[trigger] ps[i]).0 == r.0@[i] && ps[i].1 == r.1@[i]@
                        && check_fits(*zk.gens, ps[i].1) && ps[i].1.digest.len() == 32
                &&& zk.mode is Full ==> all_bound(
                    dealing_list(dealings@),
                    *cfg,
                    pki@,
                    zk.lambda as nat,
                )
            },
        },
{
    let keys = map_keys(dealings);
    let ghost ds = dealing_list(dealings@);
    let mut ids: Vec<u32> = Vec::new();
    let mut checks: Vec<VerificationCheck> = Vec::new();
    let mut i: usize = 0;
    proof {
        assert(ds.take(0) =~= Seq::<Dealing>::empty());
    }
    while i < keys.len()
        invariant
            i <= keys@.len(),
            keys@ == ordered(dealings@.dom()),
            lists(keys@, dealings@.dom()),
            ds == dealing_list(dealings@),
            cfg.t >= 1,
            params_ok(*zk),
            zk.mode is Full ==> forall|k: u32| #[trigger]
                dealings@.contains_key(k) ==> rounds_complete(
                    *zk,
                    recipient_ids(dealings@[k].dealer, pki@).len(),
                    dealings@[k].proof,
                ),
            forall|k: int|
                0 <= k < i ==> !collect_fails(
                    #[trigger] ds[k],
                    *cfg,
                    pki@,
                    *zk,
                    expect_zero_secret,
                ),
            zk.mode is Full ==> forall|k: int|
                0 <= k < i ==> circuit_binds(
                    dealing_inputs(#[trigger] ds[k], *cfg, pki@),
                    zk.lambda as nat,
                ),
            ids@.len() == pending_checks(ds.take(i as int), *cfg, pki@, *zk).len(),
            checks@.len() == ids@.len(),
            forall|k: int|
                0 <= k < ids@.len() ==> {
                    let p = #[trigger] pending_checks(ds.take(i as int), *cfg, pki@, *zk)[k];
                    &&& p.0 == ids@[k]
                    &&& p.1 == checks@[k]@
                    &&& check_fits(*zk.gens, p.1)
                    &&& p.1.digest.len() == 32
                },
        decreases keys@.len() - i,
    {
        let k = keys[i];
        proof {
            lemma_u32_keys();
            assert(keys@.contains(k));
            assert(dealings@.dom().contains(k));
            assert(ds[i as int] == dealings@[k]);
            assert(ds.take(i + 1).drop_last() =~= ds.take(i as int));
            assert(ds.take(i + 1).last() == ds[i as int]);
        }
        if let Some(d) = dealings.get(&k) {
            match collect_dealing(d, cfg, pki, zk, expect_zero_secret) {
                Ok(Some(check)) => {
                    ids.push(d.dealer);
                    checks.push(check);
                },
                Ok(None) => {},
                Err(e) => {
                    assert(first_failure(ds, *cfg, pki@, *zk, expect_zero_secret, i as int));
                    return Err(e);
                },
            }
        }
        i = i + 1;
    }
    proof {
        assert(ds.take(i as int) =~= ds);
        assert(check_views(checks@) =~= only_checks(pending_checks(ds, *cfg, pki@, *zk)));
    }
    Ok((ids, checks))
}

/// No dealing fails before its check is made up.
pub open spec fn none_fails(
    ds: Seq<Dealing>,
    cfg: DkgConfig,
    pki: Map<u32, GinAffine>,
    zk: ZkParams,
    expect_zero_secret: bool,
) -> bool {
    forall|i: int|
        0 <= i < ds.len() ==> !collect_fails(#[trigger] ds[i], cfg, pki, zk, expect_zero_secret)
}

/// Dealing `i` is the first one that fails before its check is made up.
pub open spec fn first_failure(
    ds: Seq<Dealing>,
    cfg: DkgConfig,
    pki: Map<u32, GinAffine>,
    zk: ZkParams,
    expect_zero_secret: bool,
    i: int,
) -> bool {
    &&& 0 <= i < ds.len()
    &&& collect_fails(ds[i], cfg, pki, zk, expect_zero_secret)
    &&& none_fails(ds.take(i), cfg, pki, zk, expect_zero_secret)
}

/// A batch of checks in the prime-order group that each vanish passes.
proof fn lemma_batch_passes(gens: BpGens, ps: Seq<(u32, CheckView)>)
    requires
        gens.well_formed(),
        checks_in_group(gens, ps),
        forall|i: int| 0 <= i < ps.len() ==> check_fits(gens, (#[trigger] ps[i]).1),
        forall|i: int| 0 <= i < ps.len() ==> check_vanishes(gens, (#[trigger] ps[i]).1),
    ensures
        ({
            let vs = only_checks(ps);
            let v = combined_check(vs, batch_weights(vs));
            gouts_in_group(v.points) && check_vanishes(gens, v)
        }),
{
    let vs = only_checks(ps);
    assert forall|i: int| 0 <= i < vs.len() implies check_fits(gens, #[trigger] vs[i])
        && gouts_in_group(vs[i].points) && check_vanishes(gens, vs[i]) by {
        assert(vs[i] == ps[i].1);
    }
    law_batch_of_passing_checks_passes(gens, vs, batch_weights(vs));
}

/// The points of a combination of checks in the prime-order group are in it.
proof fn lemma_batch_in_group(gens: BpGens, ps: Seq<(u32, CheckView)>)
    requires
        checks_in_group(gens, ps),
    ensures
        ({
            let vs = only_checks(ps);
            gouts_in_group(combined_check(vs, batch_weights(vs)).points)
        }),
{
    let vs = only_checks(ps);
    assert forall|i: int| 0 <= i < vs.len() implies gouts_in_group((#[trigger] vs[i]).points) by {
        assert(vs[i] == ps[i].1);
    }
    lemma_combined_in_group(vs, batch_weights(vs));
}

/// The checks with their dealers.
pub open spec fn paired(ids: Seq<u32>, checks: Seq<VerificationCheck>) -> Seq<(u32, CheckView)> {
    Seq::new(checks.len(), |i: int| (ids[i], checks[i]@))
}

/// Names the first dealer whose check does not pass.
fn offender_error(gens: &BpGens, ids: &[u32], checks: &[VerificationCheck]) -> (e: GoldenError)
    requires
        gens.well_formed(),
        ids@.len() == checks@.len(),
        forall|i: int| 0 <= i < checks@.len() ==> check_fits(*gens, (#[trigger] checks@[i])@),
    ensures
        match first_offender(*gens, paired(ids@, checks@)) {
            Some(dealer) => blames(e, dealer, "R1CS verification failed"@),
            None => {
                &&& e matches GoldenError::Internal(s) && s@
                    == "batch verification failed but every individual check passed"@
                &&& checks_in_group(*gens, paired(ids@, checks@)) ==> forall|k: int|
                    0 <= k < checks@.len() ==> check_vanishes(*gens, (#[trigger] checks@[k])@)
            },
        },
{
    let ghost ps = paired(ids@, checks@);
    let mut i: usize = 0;
    assert(ps.skip(0) =~= ps);
    while i < checks.len()
        invariant
            i <= checks@.len(),
            gens.well_formed(),
            ps == paired(ids@, checks@),
            ids@.len() == checks@.len(),
            forall|k: int| 0 <= k < checks@.len() ==> check_fits(*gens, (#[trigger] checks@[k])@),
            first_offender(*gens, ps) == first_offender(*gens, ps.skip(i as int)),
            checks_in_group(*gens, ps) ==> forall|k: int|
                0 <= k < i ==> check_vanishes(*gens, (#[trigger] checks@[k])@),
        decreases checks@.len() - i,
    {
        proof {
            assert(ps.skip(i as int)[0] == ps[i as int]);
            assert(ps.skip(i as int).drop_first() =~= ps.skip(i + 1));
            assert(ps[i as int].1 == checks@[i as int]@);
        }
        match checks[i].verify(gens) {
            Ok(_) => {},
            Err(e) => {
                return GoldenError::EvrfProofFailed { dealer: ids[i], reason: e };
            },
        }
        i = i + 1;
    }
    GoldenError::Internal(
        String::from_str("batch verification failed but every individual check passed"),
    )
}

/// What is known of a result of [`verify_dealings`]: it is the error of the first dealing
/// that fails before its check is made up, or else the verdict of the batch.
pub open spec fn dealings_verified(
    dealings: Map<u32, Dealing>,
    cfg: DkgConfig,
    pki: Map<u32, GinAffine>,
    zk: ZkParams,
    expect_zero_secret: bool,
    res: GoldenResult<()>,
) -> bool {
    let ds = dealing_list(dealings);
    let ps = pending_checks(ds, cfg, pki, zk);
    let vs = only_checks(ps);
    if none_fails(ds, cfg, pki, zk, expect_zero_secret) {
        &&& batch_result(zk, ps, res)
        &&& forall|i: int| 0 <= i < ps.len() ==> check_fits(*zk.gens, (#[trigger] ps[i]).1)
        &&& checks_in_group(*zk.gens, ps) ==> {
            &&& res is Ok <==> check_vanishes(*zk.gens, combined_check(vs, batch_weights(vs)))
            &&& (forall|i: int|
                0 <= i < ps.len() ==> check_vanishes(*zk.gens, (#[trigger] ps[i]).1)) ==> res is Ok
            &&& res is Err ==> first_offender(*zk.gens, ps) is Some
        }
    } else {
        res matches Err(e) && exists|i: int| #[trigger]
            first_failure(ds, cfg, pki, zk, expect_zero_secret, i) && collect_error(
                ds[i],
                cfg,
                pki,
                zk,
                expect_zero_secret,
                e,
            )
    }
}

/// Verifies all dealings of a session. The structure of every dealing is checked on
/// its own; the checks of the proofs are then combined to one product. Where that
/// fails, the checks are computed one by one, to name the first bad dealer.
/// Everyone comes to the same verdict.
pub fn verify_dealings(
    dealings: &BTreeMap<u32, Dealing>,
    cfg: &DkgConfig,
    pki: &BTreeMap<u32, GinAffine>,
    zk: &ZkParams,
    expect_zero_secret: bool,
) -> (res: GoldenResult<()>)
    requires
        cfg.t >= 1,
        params_ok(*zk),
        zk.mode is Full ==> forall|k: u32| #[trigger]
            dealings@.contains_key(k) ==> rounds_complete(
                *zk,
                recipient_ids(dealings@[k].dealer, pki@).len(),
                dealings@[k].proof,
            ),
    ensures
        dealings_verified(dealings@, *cfg, pki@, *zk, expect_zero_secret, res),
        zk.mode is Full && res is Ok ==> all_bound(
            dealing_list(dealings@),
            *cfg,
            pki@,
            zk.lambda as nat,
        ),
{
    let (ids, checks) = match collect_dealings(dealings, cfg, pki, zk, expect_zero_secret) {
        Ok(r) => r,
        Err(e) => {
            return Err(e);
        },
    };
    let gens: &BpGens = &zk.gens;
    let ghost ps = pending_checks(dealing_list(dealings@), *cfg, pki@, *zk);
    proof {
        assert forall|i: int| 0 <= i < checks@.len() implies check_fits(
            *zk.gens,
            (#[trigger] checks@[i])@,
        ) && checks@[i].digest@.len() <= u32::MAX by {
            assert(ps[i].1 == checks@[i]@);
        }
        assert forall|i: int| 0 <= i < ps.len() implies check_fits(*gens, (#[trigger] ps[i]).1) by {}
        if checks_in_group(*gens, ps) {
            lemma_batch_in_group(*gens, ps);
            if forall|i: int| 0 <= i < ps.len() ==> check_vanishes(*gens, (#[trigger] ps[i]).1) {
                lemma_batch_passes(*gens, ps);
            }
            if ps.len() == 0 {
                lemma_empty_vanishes(*gens);
            }
        }
    }
    if verify_evrf_checks(zk, checks.as_slice()).is_ok() {
        return Ok(());
    }
    assert(paired(ids@, checks@) =~= ps);
    Err(offender_error(gens, ids.as_slice(), checks.as_slice()))
}

// ─── completion ─────────────────────────────────────────────────────────────

/// `∏_j A_{j,m}`.
pub open spec fn joint_point(ds: Seq<Dealing>, m: int) -> GoutPoint
    decreases ds.len(),
{
    if ds.len() == 0 {
        gout_identity()
    } else {
        gout_sum(joint_point(ds.drop_last(), m), ds.last().commitment@[m]@)
    }
}

/// The commitment to the sum of the polynomials.
pub open spec fn joint_commitment(ds: Seq<Dealing>, t: nat) -> Seq<GoutPoint> {
    Seq::new(t, |m: int| joint_point(ds, m))
}

/// Coefficient `m` of the sum of the polynomials, not reduced.
pub open spec fn joint_coeff(ds: Seq<Dealing>, m: int) -> int
    decreases ds.len(),
{
    if ds.len() == 0 {
        0
    } else {
        joint_coeff(ds.drop_last(), m) + dealt_poly(ds.last())[m]
    }
}

/// `∑_j f_j(z)`, not reduced: the value of the joint polynomial.
pub open spec fn joint_value(ds: Seq<Dealing>, z: int) -> int
    decreases ds.len(),
{
    if ds.len() == 0 {
        0
    } else {
        joint_value(ds.drop_last(), z) + poly_eval(dealt_poly(ds.last()), z)
    }
}

/// Every dealing commits to a polynomial with `t` coefficients, by points of the
/// prime-order group.
pub open spec fn all_commit(ds: Seq<Dealing>, t: nat) -> bool {
    forall|i: int|
        0 <= i < ds.len() ==> (#[trigger] ds[i]).commitment@.len() == t && gouts_in_group(
            gouts(ds[i].commitment@),
        )
}

/// The sum of the polynomials has the sums of the coefficients.
pub proof fn lemma_joint_value(ds: Seq<Dealing>, t: nat, z: int)
    requires
        all_commit(ds, t),
    ensures
        joint_value(ds, z) == poly_eval(Seq::new(t, |m: int| joint_coeff(ds, m)), z),
    decreases ds.len(),
{
    let c = Seq::new(t, |m: int| joint_coeff(ds, m));
    let f = |i: int| c[i] * pow(z, i as nat);
    if ds.len() == 0 {
        assert forall|i: int| 0 <= i < t implies #[trigger] f(i) == 0 by {
            assert(0 * pow(z, i as nat) == 0);
        }
        lemma_sigma_zero(t, f);
        lemma_sigma_eq(t, f, |i: int| c[i] * pow(z, i as nat));
    } else {
        let rest = ds.drop_last();
        assert(all_commit(rest, t)) by {
            assert forall|i: int| 0 <= i < rest.len() implies (#[trigger] rest[i]).commitment@.len()
                == t && gouts_in_group(gouts(rest[i].commitment@)) by {
                assert(rest[i] == ds[i]);
            }
        }
        lemma_joint_value(rest, t, z);
        assert(ds.last() == ds[ds.len() - 1]);
        let a = Seq::new(t, |m: int| joint_coeff(rest, m));
        let b = dealt_poly(ds.last());
        let (fa, fb) = (
            |i: int| a[i] * pow(z, i as nat),
            |i: int| b[i] * pow(z, i as nat),
        );
        lemma_sigma_add(t, fa, fb);
        assert forall|i: int| 0 <= i < t implies #[trigger] f(i) == fa(i) + fb(i) by {
            let (x, y, w) = (a[i], b[i], pow(z, i as nat));
            assert((x + y) * w == x * w + y * w) by (nonlinear_arith);
        }
        lemma_sigma_eq(t, f, |i: int| fa(i) + fb(i));
        lemma_sigma_eq(t, fa, |i: int| a[i] * pow(z, i as nat));
        lemma_sigma_eq(t, fb, |i: int| b[i] * pow(z, i as nat));
        lemma_sigma_eq(t, f, |i: int| c[i] * pow(z, i as nat));
    }
}

/// What a party does with the dealing with key `j`: it must have a pad for the
/// dealer, the ciphertext, and a pad commitment that is the one of the pad.
pub open spec fn opens(
    j: u32,
    d: Dealing,
    me: u32,
    sk: int,
    cfg: DkgConfig,
    pki: Map<u32, GinAffine>,
) -> bool {
    j == me || {
        &&& has_pad(pki[j]@, sk, cfg.sid@, d.msg@)
        &&& d.ciphertexts@.contains_key(me)
        &&& d.ciphertexts@[me].r_commit@ == gout_pow(dealer_pad(j, d, sk, cfg, pki))
    }
}

/// The pad for the dealing with key `j`.
pub open spec fn dealer_pad(
    j: u32,
    d: Dealing,
    sk: int,
    cfg: DkgConfig,
    pki: Map<u32, GinAffine>,
) -> int {
    pad_value(
        sk,
        pki[j]@,
        h1_point(cfg.sid@, d.msg@)->Some_0,
        h2_point(cfg.sid@, d.msg@)->Some_0,
        cfg.beta@,
    )
}

/// Where there is a pad for the dealing with key `j`, it has been derived.
pub open spec fn pad_derived(
    j: u32,
    d: Dealing,
    sk: int,
    cfg: DkgConfig,
    pki: Map<u32, GinAffine>,
) -> bool {
    has_pad(pki[j]@, sk, cfg.sid@, d.msg@) ==> exists|pad: PadOutput, wit: EvrfWitness| #[trigger]
        pad_made(
            sk,
            pki[j]@,
            h1_point(cfg.sid@, d.msg@)->Some_0,
            h2_point(cfg.sid@, d.msg@)->Some_0,
            cfg.beta@,
            pad,
            wit,
        )
}

/// The error for a dealing that does not open.
pub open spec fn opening_error(
    j: u32,
    d: Dealing,
    me: u32,
    sk: int,
    cfg: DkgConfig,
    pki: Map<u32, GinAffine>,
    e: GoldenError,
) -> bool {
    if !has_pad(pki[j]@, sk, cfg.sid@, d.msg@) {
        e matches GoldenError::Internal(s) && s@ == "no pad"@
    } else if !d.ciphertexts@.contains_key(me) {
        e == (GoldenError::MissingCiphertext { dealer: j, recipient: me })
    } else {
        e == (GoldenError::CiphertextCheckFailed { dealer: j, recipient: me })
    }
}

/// The share that a dealing holds for a party: the decrypted one, or nothing of the
/// party's own dealing.
pub open spec fn opened_share(
    j: u32,
    d: Dealing,
    me: u32,
    sk: int,
    cfg: DkgConfig,
    pki: Map<u32, GinAffine>,
) -> int {
    if j == me {
        0
    } else {
        d.ciphertexts@[me].z@ - dealer_pad(j, d, sk, cfg, pki)
    }
}

/// The sum of the shares of the first `i` dealings, not reduced.
pub open spec fn opened_sum(
    dealings: Map<u32, Dealing>,
    ids: Seq<u32>,
    me: u32,
    sk: int,
    cfg: DkgConfig,
    pki: Map<u32, GinAffine>,
    i: nat,
) -> int
    decreases i,
{
    if i == 0 {
        0
    } else {
        opened_sum(dealings, ids, me, sk, cfg, pki, (i - 1) as nat) + opened_share(
            ids[i - 1],
            dealings[ids[i - 1]],
            me,
            sk,
            cfg,
            pki,
        )
    }
}

/// Decrypts the share of a dealing.
fn open_share(
    j: u32,
    d: &Dealing,
    me: u32,
    sk: &Fs,
    cfg: &DkgConfig,
    pki: &BTreeMap<u32, GinAffine>,
) -> (res: GoldenResult<Fp>)
    requires
        j != me ==> pki@.contains_key(j),
    ensures
        match res {
            Ok(x) => opens(j, *d, me, sk@, *cfg, pki@) && x@ == opened_share(
                j,
                *d,
                me,
                sk@,
                *cfg,
                pki@,
            ) % fp_order() && (j != me ==> gout_is_pow(
                d.ciphertexts@[me].r_commit@,
                dealer_pad(j, *d, sk@, *cfg, pki@),
            )),
            Err(e) => !opens(j, *d, me, sk@, *cfg, pki@) && opening_error(
                j,
                *d,
                me,
                sk@,
                *cfg,
                pki@,
                e,
            ),
        },
        j != me ==> pad_derived(j, *d, sk@, *cfg, pki@),
{
    proof {
        lemma_u32_keys();
        lemma_fp_order();
        lemma_mod_reduced(0, fp_order());
    }
    if j == me {
        return Ok(Fp::zero());
    }
    let pk = match pki.get(&j) {
        Some(pk) => pk,
        None => {
            return Err(GoldenError::PartyNotInPki { id: j });
        },
    };
    let (pad, wit) = match try_eval_pad(sk, pk, &cfg.sid, &d.msg, &cfg.beta) {
        Some(r) => r,
        None => {
            return Err(GoldenError::Internal(String::from_str("no pad")));
        },
    };
    assert(pad_made(
        sk@,
        pki@[j]@,
        h1_point(cfg.sid@, d.msg@)->Some_0,
        h2_point(cfg.sid@, d.msg@)->Some_0,
        cfg.beta@,
        pad,
        wit,
    ));
    let ct = match d.ciphertexts.get(&me) {
        Some(ct) => ct,
        None => {
            return Err(GoldenError::MissingCiphertext { dealer: j, recipient: me });
        },
    };
    if ct.r_commit != pad.r_commit {
        return Err(GoldenError::CiphertextCheckFailed { dealer: j, recipient: me });
    }
    Ok(ct.z - pad.r)
}

/// Multiplies the commitment of a dealing to the joint one, coefficient by
/// coefficient.
fn add_commitment(agg: &mut Vec<GoutAffine>, commitment: &[GoutAffine])
    requires
        commitment@.len() >= old(agg)@.len(),
    ensures
        final(agg)@.len() == old(agg)@.len(),
        forall|m: int|
            0 <= m < old(agg)@.len() ==> gout_sum_is(
                old(agg)@[m]@,
                commitment@[m]@,
                (#[trigger] final(agg)@[m])@,
            ),
{
    let ghost before = agg@;
    let mut i: usize = 0;
    while i < agg.len()
        invariant
            i <= agg@.len(),
            agg@.len() == before.len(),
            commitment@.len() >= before.len(),
            forall|m: int|
                0 <= m < i ==> gout_sum_is(before[m]@, commitment@[m]@, (#[trigger] agg@[m])@),
            forall|m: int| i <= m < agg@.len() ==> #[trigger] agg@[m] == before[m],
        decreases agg@.len() - i,
    {
        let x = agg[i].plus(&commitment[i]);
        agg.set(i, x);
        i = i + 1;
    }
}

/// The dealings are as many as there are parties, and one's own is among them.
pub open spec fn counted(dealings: Map<u32, Dealing>, me: u32, cfg: DkgConfig) -> bool {
    dealings.len() as u32 == cfg.n && dealings.contains_key(me)
}

/// Every dealing opens.
pub open spec fn all_open(
    dealings: Map<u32, Dealing>,
    me: u32,
    sk: int,
    cfg: DkgConfig,
    pki: Map<u32, GinAffine>,
    i: int,
) -> bool {
    let ids = ordered(dealings.dom());
    forall|k: int| 0 <= k < i ==> opens(#[trigger] ids[k], dealings[ids[k]], me, sk, cfg, pki)
}

/// The output of a completed session: the joint commitment gives the keys, and the
/// shares add up.
pub open spec fn output_is(
    dealings: Map<u32, Dealing>,
    me: u32,
    sk: int,
    cfg: DkgConfig,
    pki: Map<u32, GinAffine>,
    own: int,
    out: DkgOutput,
) -> bool {
    let ids = ordered(dealings.dom());
    let c = joint_commitment(dealing_list(dealings), cfg.t as nat);
    &&& out.public_key@ == c[0]
    &&& out.public_key_shares@.dom() == pki.dom()
    &&& forall|l: u32|
        pki.contains_key(l) ==> (#[trigger] out.public_key_shares@[l])@ == horner_points(
            c,
            l as int,
        )
    &&& out.secret_share@ == (own + opened_sum(dealings, ids, me, sk, cfg, pki, ids.len()))
        % fp_order()
}

/// The keys of an output are those of the joint polynomial: `PK = g_out^{F(0)}`, and
/// `PK_l = g_out^{F(l)}`.
pub open spec fn keys_of_joint_polynomial(
    dealings: Map<u32, Dealing>,
    pki: Map<u32, GinAffine>,
    out: DkgOutput,
) -> bool {
    let ds = dealing_list(dealings);
    &&& gout_is_pow(out.public_key@, joint_value(ds, 0) % fp_order())
    &&& forall|l: u32|
        pki.contains_key(l) ==> gout_is_pow(
            (#[trigger] out.public_key_shares@[l])@,
            joint_value(ds, l as int) % fp_order(),
        )
}

/// For a session whose dealings verify, and one's own share is that of one's own
/// dealing: every ciphertext for `me` matches the commitments.
pub open spec fn shares_valid(
    dealings: Map<u32, Dealing>,
    me: u32,
    own: int,
) -> bool {
    &&& own == poly_eval(dealt_poly(dealings[me]), me as int) % fp_order()
    &&& forall|j: u32| #[trigger]
        dealings.contains_key(j) && j != me ==> ciphertext_matches(dealings[j], me)
}

/// The dealings, added up to the joint commitment and the share, up to dealing `i`.
spec fn completed_to(
    dealings: Map<u32, Dealing>,
    agg: Seq<GoutAffine>,
    t: nat,
    i: int,
) -> bool {
    let ds = dealing_list(dealings).take(i);
    &&& agg.len() == t
    &&& forall|m: int| 0 <= m < t ==> (#[trigger] agg[m])@ == joint_point(ds, m)
    &&& all_commit(ds, t) ==> forall|m: int|
        0 <= m < t ==> gout_is_pow((#[trigger] agg[m])@, joint_coeff(ds, m) % fp_order())
}

/// One more dealing.
proof fn lemma_completed_step(
    dealings: Map<u32, Dealing>,
    before: Seq<GoutAffine>,
    after: Seq<GoutAffine>,
    t: nat,
    i: int,
)
    requires
        0 <= i < dealing_list(dealings).len(),
        completed_to(dealings, before, t, i),
        dealing_list(dealings)[i].commitment@.len() >= t,
        after.len() == t,
        forall|m: int|
            0 <= m < t ==> gout_sum_is(
                before[m]@,
                dealing_list(dealings)[i].commitment@[m]@,
                (#[trigger] after[m])@,
            ),
    ensures
        completed_to(dealings, after, t, i + 1),
{
    let ds = dealing_list(dealings);
    let (a, b) = (ds.take(i), ds.take(i + 1));
    let md = fp_order();
    lemma_fp_order();
    assert(b.drop_last() =~= a);
    assert(b.last() == ds[i]);
    if all_commit(b, t) {
        assert(all_commit(a, t)) by {
            assert forall|k: int| 0 <= k < a.len() implies (#[trigger] a[k]).commitment@.len() == t
                && gouts_in_group(gouts(a[k].commitment@)) by {
                assert(a[k] == b[k]);
            }
        }
        assert(b[i] == ds[i]);
        assert forall|m: int| 0 <= m < t implies gout_is_pow(
            (#[trigger] after[m])@,
            joint_coeff(b, m) % md,
        ) by {
            let x = joint_coeff(a, m);
            let p = ds[i].commitment@[m]@;
            assert(gouts(ds[i].commitment@)[m] == p);
            assert(gout_in_group(p));
            lemma_gout_log(before[m]@, x % md);
            lemma_cong_mod(x, md);
            lemma_cong_add(x % md, x, gout_log(p), gout_log(p), md);
        }
    }
}

/// Opens the shares of all dealings and adds everything up.
fn open_all(
    me: u32,
    sk: &Fs,
    cfg: &DkgConfig,
    pki: &BTreeMap<u32, GinAffine>,
    own: &DealingPrivate,
    dealings: &BTreeMap<u32, Dealing>,
) -> (res: GoldenResult<(Fp, Vec<GoutAffine>)>)
    requires
        forall|j: u32| #[trigger]
            dealings@.contains_key(j) ==> dealings@[j].commitment@.len() >= cfg.t && (j != me
                ==> pki@.contains_key(j)),
    ensures
        ({
            let ids = ordered(dealings@.dom());
            match res {
                Ok(r) => {
                    &&& lists(ids, dealings@.dom())
                    &&& all_open(dealings@, me, sk@, *cfg, pki@, ids.len() as int)
                    &&& r.0@ == (own.own_share@ + opened_sum(
                        dealings@,
                        ids,
                        me,
                        sk@,
                        *cfg,
                        pki@,
                        ids.len(),
                    )) % fp_order()
                    &&& completed_to(dealings@, r.1@, cfg.t as nat, ids.len() as int)
                    &&& forall|k: int|
                        0 <= k < ids.len() && #[trigger] ids[k] != me ==> gout_log(
                            dealings@[ids[k]].ciphertexts@[me].r_commit@,
                        ) == dealer_pad(ids[k], dealings@[ids[k]], sk@, *cfg, pki@)
                },
                Err(e) => exists|i: int|
                    0 <= i < ids.len() && #[trigger] all_open(
                        dealings@,
                        me,
                        sk@,
                        *cfg,
                        pki@,
                        i,
                    ) && !opens(ids[i], dealings@[ids[i]], me, sk@, *cfg, pki@) && opening_error(
                        ids[i],
                        dealings@[ids[i]],
                        me,
                        sk@,
                        *cfg,
                        pki@,
                        e,
                    ) && (ids[i] != me ==> pad_derived(
                        ids[i],
                        dealings@[ids[i]],
                        sk@,
                        *cfg,
                        pki@,
                    )),
            }
        }),
{
    let ids = map_keys(dealings);
    let ghost ks = ids@;
    let ghost m = fp_order();
    let mut secret_share = own.own_share;
    let mut agg: Vec<GoutAffine> = Vec::with_capacity(cfg.t as usize);
    proof {
        lemma_fp_order();
        lemma_fp_range(own.own_share);
        lemma_mod_reduced(own.own_share@, m);
        lemma_mod_reduced(0, m);
    }
    while agg.len() < cfg.t as usize
        invariant
            agg@.len() <= cfg.t,
            forall|k: int|
                0 <= k < agg@.len() ==> (#[trigger] agg@[k])@ == gout_identity() && gout_is_pow(
                    agg@[k]@,
                    0,
                ),
        decreases cfg.t - agg@.len(),
    {
        agg.push(GoutAffine::zero());
    }
    proof {
        assert(dealing_list(dealings@).take(0) =~= Seq::<Dealing>::empty());
        assert(completed_to(dealings@, agg@, cfg.t as nat, 0));
    }
    let mut i: usize = 0;
    while i < ids.len()
        invariant
            i <= ks.len(),
            ks == ids@,
            ks == ordered(dealings@.dom()),
            lists(ks, dealings@.dom()),
            m == fp_order(),
            m > 1,
            forall|j: u32| #[trigger]
                dealings@.contains_key(j) ==> dealings@[j].commitment@.len() >= cfg.t && (j != me
                    ==> pki@.contains_key(j)),
            all_open(dealings@, me, sk@, *cfg, pki@, i as int),
            secret_share@ == (own.own_share@ + opened_sum(
                dealings@,
                ks,
                me,
                sk@,
                *cfg,
                pki@,
                i as nat,
            )) % m,
            completed_to(dealings@, agg@, cfg.t as nat, i as int),
            forall|k: int|
                0 <= k < i && #[trigger] ks[k] != me ==> gout_log(
                    dealings@[ks[k]].ciphertexts@[me].r_commit@,
                ) == dealer_pad(ks[k], dealings@[ks[k]], sk@, *cfg, pki@),
        decreases ks.len() - i,
    {
        let j = ids[i];
        proof {
            lemma_u32_keys();
            assert(ks.contains(j));
            assert(dealings@.dom().contains(j));
            assert(dealings@.contains_key(j));
        }
        if let Some(d) = dealings.get(&j) {
            match open_share(j, d, me, sk, cfg, pki) {
                Ok(x) => {
                    let ghost before = secret_share@;
                    let ghost agg0 = agg@;
                    secret_share = secret_share + x;
                    add_commitment(&mut agg, d.commitment.as_slice());
                    proof {
                        let s = own.own_share@ + opened_sum(
                            dealings@,
                            ks,
                            me,
                            sk@,
                            *cfg,
                            pki@,
                            i as nat,
                        );
                        let y = opened_share(j, *d, me, sk@, *cfg, pki@);
                        lemma_cong_mod(s, m);
                        lemma_cong_mod(y, m);
                        lemma_cong_add(before, s, x@, y, m);
                        lemma_completed_step(dealings@, agg0, agg@, cfg.t as nat, i as int);
                        if j != me {
                            lemma_gout_log(
                                d.ciphertexts@[me].r_commit@,
                                dealer_pad(j, *d, sk@, *cfg, pki@),
                            );
                        }
                    }
                },
                Err(e) => {
                    assert(all_open(dealings@, me, sk@, *cfg, pki@, i as int));
                    return Err(e);
                },
            }
        }
        i = i + 1;
    }
    Ok((secret_share, agg))
}

/// What is known of a result of [`complete`].
pub open spec fn completed(
    dealings: Map<u32, Dealing>,
    me: u32,
    sk: int,
    cfg: DkgConfig,
    pki: Map<u32, GinAffine>,
    own: int,
    res: GoldenResult<DkgOutput>,
) -> bool {
    let ids = ordered(dealings.dom());
    if !counted(dealings, me, cfg) {
        res matches Err(GoldenError::Internal(s)) && s@ == "expected "@ + decimal(cfg.n as nat)
            + " dealings (incl. own), got "@ + decimal(dealings.len())
    } else {
        match res {
            Ok(out) => all_open(dealings, me, sk, cfg, pki, ids.len() as int) && output_is(
                dealings,
                me,
                sk,
                cfg,
                pki,
                own,
                out,
            ),
            Err(e) => exists|i: int|
                0 <= i < ids.len() && #[trigger] all_open(dealings, me, sk, cfg, pki, i) && !opens(
                    ids[i],
                    dealings[ids[i]],
                    me,
                    sk,
                    cfg,
                    pki,
                ) && opening_error(ids[i], dealings[ids[i]], me, sk, cfg, pki, e) && (ids[i] != me
                    ==> pad_derived(ids[i], dealings[ids[i]], sk, cfg, pki)),
        }
    }
}

/// The share that is opened from a dealing is the value of its polynomial.
proof fn lemma_opened_sum(
    dealings: Map<u32, Dealing>,
    me: u32,
    sk: int,
    cfg: DkgConfig,
    pki: Map<u32, GinAffine>,
    own: int,
    i: nat,
)
    requires
        lists(ordered(dealings.dom()), dealings.dom()),
        dealings.contains_key(me),
        shares_valid(dealings, me, own),
        i <= ordered(dealings.dom()).len(),
        forall|k: int|
            0 <= k < ordered(dealings.dom()).len() && #[trigger] ordered(dealings.dom())[k] != me
                ==> gout_log(
                dealings[ordered(dealings.dom())[k]].ciphertexts@[me].r_commit@,
            ) == dealer_pad(
                ordered(dealings.dom())[k],
                dealings[ordered(dealings.dom())[k]],
                sk,
                cfg,
                pki,
            ),
    ensures
        cong(
            opened_sum(dealings, ordered(dealings.dom()), me, sk, cfg, pki, i) + (if ordered(
                dealings.dom(),
            ).take(i as int).contains(me) {
                own
            } else {
                0
            }),
            joint_value(dealing_list(dealings).take(i as int), me as int),
            fp_order(),
        ),
    decreases i,
{
    let ids = ordered(dealings.dom());
    let ds = dealing_list(dealings);
    let m = fp_order();
    lemma_fp_order();
    if i == 0 {
        assert(!ids.take(0).contains(me));
    } else {
        let k = i - 1;
        let j = ids[k];
        let d = dealings[j];
        lemma_opened_sum(dealings, me, sk, cfg, pki, own, k as nat);
        assert(ds.take(i as int).drop_last() =~= ds.take(k));
        assert(ds.take(i as int).last() == d);
        assert(ids.contains(j));
        assert(dealings.dom().contains(j));
        assert(dealings.contains_key(j));
        let f = poly_eval(dealt_poly(d), me as int);
        let s = opened_sum(dealings, ids, me, sk, cfg, pki, k as nat);
        let jv = joint_value(ds.take(k), me as int);
        if j == me {
            assert(!ids.take(k).contains(me)) by {
                if ids.take(k).contains(me) {
                    let l = choose|l: int| 0 <= l < k && ids.take(k)[l] == me;
                    assert(ids[l] < ids[k]);
                }
            }
            assert(ids.take(i as int)[k] == me);
            assert(ids.take(i as int).contains(me));
            lemma_cong_mod(f, m);
            lemma_cong_add(s, jv, own, f, m);
        } else {
            let had = ids.take(k).contains(me);
            assert(ids.take(i as int).contains(me) == had) by {
                if had {
                    let l = choose|l: int| 0 <= l < k && ids.take(k)[l] == me;
                    assert(ids.take(i as int)[l] == me);
                }
                if ids.take(i as int).contains(me) {
                    let l = choose|l: int| 0 <= l < i && ids.take(i as int)[l] == me;
                    assert(ids.take(k)[l] == me);
                }
            }
            let x: int = if had {
                own
            } else {
                0
            };
            let z = d.ciphertexts@[me].z@;
            let r = gout_log(d.ciphertexts@[me].r_commit@);
            assert(ciphertext_matches(d, me));
            lemma_cong_mod(f + r, m);
            lemma_cong_sub(z, f + r, r, r, m);
            lemma_cong_add(s + x, jv, z - r, f, m);
        }
    }
}

/// The keys that the joint commitment gives are those of the joint polynomial.
proof fn lemma_joint_keys(
    ds: Seq<Dealing>,
    t: nat,
    agg: Seq<GoutAffine>,
    pki: Map<u32, GinAffine>,
    out: DkgOutput,
)
    requires
        t >= 1,
        all_commit(ds, t),
        agg.len() == t,
        forall|m: int|
            0 <= m < t ==> gout_is_pow((#[trigger] agg[m])@, joint_coeff(ds, m) % fp_order()),
        out.public_key@ == agg[0]@,
        forall|l: u32|
            pki.contains_key(l) && gouts_in_group(gouts(agg)) ==> gout_is_pow(
                (#[trigger] out.public_key_shares@[l])@,
                poly_eval(gout_logs(gouts(agg)), l as int) % fp_order(),
            ),
    ensures
        gout_is_pow(out.public_key@, joint_value(ds, 0) % fp_order()),
        forall|l: u32|
            pki.contains_key(l) ==> gout_is_pow(
                (#[trigger] out.public_key_shares@[l])@,
                joint_value(ds, l as int) % fp_order(),
            ),
{
    let m = fp_order();
    lemma_fp_order();
    let c = Seq::new(t, |k: int| joint_coeff(ds, k));
    let logs = gout_logs(gouts(agg));
    assert(gouts_in_group(gouts(agg))) by {
        assert forall|k: int| 0 <= k < t implies gout_in_group(#[trigger] gouts(agg)[k]) by {
            lemma_gout_log(agg[k]@, joint_coeff(ds, k) % m);
        }
    }
    assert forall|k: int| 0 <= k < t implies cong(#[trigger] logs[k], c[k], m) by {
        lemma_gout_log(agg[k]@, joint_coeff(ds, k) % m);
        lemma_cong_mod(c[k], m);
    }
    assert forall|z: int| cong(#[trigger] poly_eval(logs, z), joint_value(ds, z), m) by {
        lemma_joint_value(ds, t, z);
        lemma_poly_eval_cong(logs, c, z, z, m);
    }
    assert(cong(poly_eval(logs, 0), joint_value(ds, 0), m));
    lemma_joint_value(ds, t, 0);
    lemma_poly_at_zero(c);
}

/// The value of a polynomial at zero is its first coefficient.
pub proof fn lemma_poly_at_zero(c: Seq<int>)
    requires
        c.len() > 0,
    ensures
        poly_eval(c, 0) == c[0],
{
    let rest = c.drop_first();
    assert(c =~= seq![c[0]] + rest);
    lemma_poly_eval_cons(c[0], rest, 0);
    assert(poly_eval(rest, 0) * 0 == 0) by (nonlinear_arith);
    assert(0 * poly_eval(rest, 0) == 0) by (nonlinear_arith);
}

/// `PK_l` for every registered party.
fn key_shares(agg: &[GoutAffine], pki: &BTreeMap<u32, GinAffine>) -> (r: BTreeMap<u32, GoutAffine>)
    requires
        agg@.len() > 0,
    ensures
        r@.dom() == pki@.dom(),
        forall|l: u32|
            pki@.contains_key(l) ==> {
                &&& (#[trigger] r@[l])@ == horner_points(gouts(agg@), l as int)
                &&& gouts_in_group(gouts(agg@)) ==> gout_is_pow(
                    r@[l]@,
                    poly_eval(gout_logs(gouts(agg@)), l as int) % fp_order(),
                )
            },
{
    let keys = map_keys(pki);
    let mut out: BTreeMap<u32, GoutAffine> = BTreeMap::new();
    let mut i: usize = 0;
    while i < keys.len()
        invariant
            i <= keys@.len(),
            lists(keys@, pki@.dom()),
            agg@.len() > 0,
            forall|l: u32| #[trigger] out@.contains_key(l) <==> keys@.take(i as int).contains(l),
            forall|l: u32|
                out@.contains_key(l) ==> {
                    &&& (#[trigger] out@[l])@ == horner_points(gouts(agg@), l as int)
                    &&& gouts_in_group(gouts(agg@)) ==> gout_is_pow(
                        out@[l]@,
                        poly_eval(gout_logs(gouts(agg@)), l as int) % fp_order(),
                    )
                },
        decreases keys@.len() - i,
    {
        let l = keys[i];
        let ghost before = out@;
        let x = share_commitment_proj(agg, l);
        proof {
            lemma_u32_keys();
        }
        out.insert(l, x);
        proof {
            let (a, b) = (keys@.take(i as int), keys@.take(i + 1));
            assert forall|k: u32| #[trigger] out@.contains_key(k) <==> b.contains(k) by {
                if b.contains(k) {
                    let q = choose|q: int| 0 <= q < b.len() && b[q] == k;
                    if q < i {
                        assert(a[q] == k);
                    }
                }
                if a.contains(k) {
                    let q = choose|q: int| 0 <= q < a.len() && a[q] == k;
                    assert(b[q] == k);
                }
                assert(b[i as int] == l);
            }
        }
        i = i + 1;
    }
    proof {
        assert(keys@.take(i as int) =~= keys@);
        assert(out@.dom() =~= pki@.dom());
    }
    out
}

/// Decrypts one's shares and adds everything up. All dealings, one's own too, must
/// have been verified.
pub fn complete(
    me: &RegisteredKey,
    sk: &Fs,
    cfg: &DkgConfig,
    pki: &BTreeMap<u32, GinAffine>,
    own: &DealingPrivate,
    dealings: &BTreeMap<u32, Dealing>,
) -> (res: GoldenResult<DkgOutput>)
    requires
        counted(dealings@, me.id, *cfg) ==> {
            &&& cfg.t >= 1
            &&& forall|j: u32| #[trigger]
                dealings@.contains_key(j) ==> dealings@[j].commitment@.len() >= cfg.t && (j != me.id
                    ==> pki@.contains_key(j))
        },
    ensures
        completed(dealings@, me.id, sk@, *cfg, pki@, own.own_share@, res),
        all_commit(dealing_list(dealings@), cfg.t as nat) ==> (res matches Ok(out)
            ==> keys_of_joint_polynomial(dealings@, pki@, out)),
        shares_valid(dealings@, me.id, own.own_share@) ==> (res matches Ok(out)
            ==> out.secret_share@ == joint_value(dealing_list(dealings@), me.id as int)
            % fp_order()),
{
    proof {
        lemma_u32_keys();
        lemma_fp_order();
    }
    if dealings.len() as u32 != cfg.n || !dealings.contains_key(&me.id) {
        let mut s = String::from_str("expected ");
        append_decimal(&mut s, cfg.n as u64);
        s.append(" dealings (incl. own), got ");
        append_decimal(&mut s, dealings.len() as u64);
        return Err(GoldenError::Internal(s));
    }
    let (secret_share, agg) = match open_all(me.id, sk, cfg, pki, own, dealings) {
        Ok(r) => r,
        Err(e) => {
            return Err(e);
        },
    };
    let public_key_shares = key_shares(agg.as_slice(), pki);
    let out = DkgOutput { public_key: agg[0], public_key_shares, secret_share };
    proof {
        let ids = ordered(dealings@.dom());
        let ds = dealing_list(dealings@);
        let t = cfg.t as nat;
        let m = fp_order();
        assert(ds.take(ids.len() as int) =~= ds);
        assert(gouts(agg@) =~= joint_commitment(ds, t));
        if all_commit(ds, t) {
            lemma_joint_keys(ds, t, agg@, pki@, out);
        }
        if shares_valid(dealings@, me.id, own.own_share@) {
            assert(lists(ids, dealings@.dom()));
            lemma_opened_sum(
                dealings@,
                me.id,
                sk@,
                *cfg,
                pki@,
                own.own_share@,
                ids.len(),
            );
            assert(ids.take(ids.len() as int) =~= ids);
            assert(dealings@.dom().contains(me.id));
        }
    }
    Ok(out)
}

/// One's own public share is that of one's secret share.
pub open spec fn output_consistent(out: DkgOutput, my_id: u32) -> bool {
    out.public_key_shares@.contains_key(my_id) && gout_pow(out.secret_share@)
        == out.public_key_shares@[my_id]@
}

/// Whether `g_out^{sk_i}` is the public share `PK_i`.
pub fn check_output(out: &DkgOutput, my_id: u32) -> (r: bool)
    ensures
        r == output_consistent(*out, my_id),
{
    proof {
        lemma_u32_keys();
    }
    match out.public_key_shares.get(&my_id) {
        Some(pk_i) => gout_mul(&out.secret_share) == *pk_i,
        None => false,
    }
}

// ─── session identifiers ────────────────────────────────────────────────────

/// The transcript after the registered keys, in ascending order of the parties.
pub open spec fn keys_log(
    log: Seq<TranscriptEvent>,
    ids: Seq<u32>,
    pki: Map<u32, GinAffine>,
) -> Seq<TranscriptEvent>
    decreases ids.len(),
{
    if ids.len() == 0 {
        log
    } else {
        keys_log(log, ids.drop_last(), pki).push(
            ev_u64("id".spec_bytes(), ids.last() as u64),
        ).push(ev_gin("pk".spec_bytes(), pki[ids.last()]@))
    }
}

/// The transcript that a session identifier is drawn from.
pub open spec fn session_log(
    label: Seq<u8>,
    n: u32,
    t: u32,
    pki: Map<u32, GinAffine>,
) -> Seq<TranscriptEvent> {
    keys_log(
        seq![
            TranscriptEvent::Append {
                label: "dom-sep".spec_bytes(),
                message: "golden-nidkg/session-id/v1".spec_bytes(),
            },
            ev_bytes("label".spec_bytes(), label),
            ev_u64("n".spec_bytes(), n as u64),
            ev_u64("t".spec_bytes(), t as u64),
        ],
        ordered(pki.dom()),
        pki,
    )
}

/// A session identifier from what is public: a label, the parameters and the
/// registered keys.
pub fn derive_session_id(
    label: &[u8],
    n: u32,
    t: u32,
    pki: &BTreeMap<u32, GinAffine>,
) -> (r: SessionId)
    requires
        label@.len() <= u32::MAX,
    ensures
        r@ == transcript_challenge(session_log(label@, n, t, pki@), "sid".spec_bytes(), 32),
{
    proof {
        reveal_strlit("golden-nidkg/session-id/v1");
        is_ascii_spec_bytes("golden-nidkg/session-id/v1");
    }
    let mut tr = Transcript::new("golden-nidkg/session-id/v1".as_bytes());
    tr.append_bytes("label".as_bytes(), label);
    TranscriptExt::append_u64(&mut tr, "n".as_bytes(), n as u64);
    TranscriptExt::append_u64(&mut tr, "t".as_bytes(), t as u64);
    let ghost log0 = transcript_log(tr);
    let ids = map_keys(pki);
    let ghost ks = ids@;
    let mut i: usize = 0;
    assert(ks.take(0) =~= Seq::<u32>::empty());
    while i < ids.len()
        invariant
            i <= ks.len(),
            ks == ids@,
            lists(ks, pki@.dom()),
            transcript_log(tr) == keys_log(log0, ks.take(i as int), pki@),
        decreases ks.len() - i,
    {
        let id = ids[i];
        proof {
            lemma_u32_keys();
            assert(ks.contains(id));
            assert(pki@.dom().contains(id));
            assert(ks.take(i + 1).drop_last() =~= ks.take(i as int));
            assert(ks.take(i + 1).last() == id);
        }
        if let Some(pk) = pki.get(&id) {
            TranscriptExt::append_u64(&mut tr, "id".as_bytes(), id as u64);
            tr.append_gin("pk".as_bytes(), pk);
        }
        i = i + 1;
    }
    proof {
        assert(ks.take(i as int) =~= ks);
        assert(log0 =~= seq![
            TranscriptEvent::Append {
                label: "dom-sep".spec_bytes(),
                message: "golden-nidkg/session-id/v1".spec_bytes(),
            },
            ev_bytes("label".spec_bytes(), label@),
            ev_u64("n".spec_bytes(), n as u64),
            ev_u64("t".spec_bytes(), t as u64),
        ]);
    }
    let mut buf: [u8; 32] = [0u8; 32];
    tr.challenge_bytes("sid".as_bytes(), &mut buf);
    SessionId(buf)
}

} // verus!
