//! Making a dealing.
use crate::algebra::{lemma_cong_add, lemma_cong_mod, poly_eval};
use crate::curves::{
    gin_in_group, gin_is_pow, gout_is_pow, gouts, lemma_gout_log, Fp, Fs, GinAffine, GinPoint,
};
use crate::dkg::{
    dealing_inputs, dealt_poly, first_recipient_error, first_unexpected, hashes_exist,
    recipient_error, recipients, structure_error, Dealing, DealingPrivate, DkgConfig,
    ShareCiphertext,
};
use crate::errors::{append_decimal, decimal, GoldenError, GoldenResult};
use crate::evrf::{has_pad, random_bytes, try_eval_pad, witness_made, EvrfWitness};
use crate::field::{fp_order, lemma_fp_order, lemma_fp_range, lemma_fs_order, lemma_fs_range};
use crate::hash_to_curve::{h1_point, h2_point, try_h1, try_h2};
use crate::maps::{
    first_indices, lemma_first_indices, lemma_ordered_lists, lemma_others, lemma_u32_keys, ordered,
    others,
};
use crate::schnorr::RegisteredKey;
use crate::shamir::{evaluate_shares, shares_of, Polynomial};
use crate::vss::{commit, commits_to, lemma_commits_logs};
use crate::zk::evrf_circuit::{honest_peer, EvrfPeerInputs};
use crate::zk::evrf_proof::{
    committed_vars, exponents_accepted, full_result, honest_inputs, input_bases, pads, params_ok,
    proof_in_group, prove_evrf_batch, quick_result, start_system, BatchPublicInputs, EvrfProof,
    InputsView, ZkParams,
};
use crate::zk::honest::lemma_order_bits;
use crate::zk::r1cs::wire;
use rand::rngs::StdRng;
use std::collections::BTreeMap;
use vstd::prelude::*;
use vstd::string::StringExecFns;

verus! {

/// The ciphertext holds the share `x`, encrypted with the pad of the witness.
pub open spec fn encrypts(
    sk: int,
    pk: GinPoint,
    cfg: DkgConfig,
    msg: Seq<u8>,
    x: int,
    ct: ShareCiphertext,
    wit: EvrfWitness,
) -> bool {
    &&& has_pad(pk, sk, cfg.sid@, msg)
    &&& witness_made(
        sk,
        pk,
        h1_point(cfg.sid@, msg)->Some_0,
        h2_point(cfg.sid@, msg)->Some_0,
        cfg.beta@,
        wit,
    )
    &&& gout_is_pow(ct.r_commit@, wit.r@)
    &&& ct.z@ == (wit.r@ + x) % fp_order()
}

/// There is one ciphertext for each of the parties `ids`, with its witness, which
/// holds the value of `f` at the party's index.
pub open spec fn all_encrypted(
    ids: Seq<u32>,
    sk: int,
    cfg: DkgConfig,
    pki: Map<u32, GinAffine>,
    f: Seq<int>,
    msg: Seq<u8>,
    cts: Map<u32, ShareCiphertext>,
    wits: Seq<EvrfWitness>,
) -> bool {
    &&& wits.len() == ids.len()
    &&& forall|k: u32| #[trigger] cts.contains_key(k) <==> ids.contains(k)
    &&& forall|q: int|
        0 <= q < ids.len() ==> pki.contains_key(#[trigger] ids[q]) && encrypts(
            sk,
            pki[ids[q]]@,
            cfg,
            msg,
            poly_eval(f, ids[q] as int) % fp_order(),
            cts[ids[q]],
            wits[q],
        )
}

/// Party `k` cannot be dealt to: it is not registered, or there is no pad.
pub open spec fn undealable(
    k: u32,
    sk: int,
    cfg: DkgConfig,
    pki: Map<u32, GinAffine>,
    msg: Seq<u8>,
) -> bool {
    !pki.contains_key(k) || !has_pad(pki[k]@, sk, cfg.sid@, msg)
}

/// The error for a party that cannot be dealt to.
pub open spec fn undealable_error(k: u32, pki: Map<u32, GinAffine>, e: GoldenError) -> bool {
    if !pki.contains_key(k) {
        e == (GoldenError::PartyNotInPki { id: k })
    } else {
        e matches GoldenError::Internal(s) && s@ == "no pad"@
    }
}

/// All of the parties `1, …, k`, but for `me`, can be dealt to.
pub open spec fn dealable_to(
    k: int,
    me: u32,
    sk: int,
    cfg: DkgConfig,
    pki: Map<u32, GinAffine>,
    msg: Seq<u8>,
) -> bool {
    forall|l: u32| 1 <= l <= k && l != me ==> !#[trigger] undealable(l, sk, cfg, pki, msg)
}

/// `k` is the first party that cannot be dealt to.
pub open spec fn first_undealable(
    k: u32,
    me: u32,
    sk: int,
    cfg: DkgConfig,
    pki: Map<u32, GinAffine>,
    msg: Seq<u8>,
) -> bool {
    &&& 1 <= k <= cfg.n
    &&& k != me
    &&& undealable(k, sk, cfg, pki, msg)
    &&& dealable_to(k - 1, me, sk, cfg, pki, msg)
}

/// Ciphertexts, recipients and witnesses.
struct Encrypted {
    ciphertexts: BTreeMap<u32, ShareCiphertext>,
    peers: Vec<EvrfPeerInputs>,
    wits: Vec<EvrfWitness>,
    own_share: Option<Fp>,
}

/// The ciphertexts after one more recipient.
proof fn lemma_encrypted_step(
    ids: Seq<u32>,
    k: u32,
    sk: int,
    cfg: DkgConfig,
    pki: Map<u32, GinAffine>,
    f: Seq<int>,
    msg: Seq<u8>,
    cts: Map<u32, ShareCiphertext>,
    wits: Seq<EvrfWitness>,
    ct: ShareCiphertext,
    wit: EvrfWitness,
)
    requires
        all_encrypted(ids, sk, cfg, pki, f, msg, cts, wits),
        !ids.contains(k),
        pki.contains_key(k),
        encrypts(sk, pki[k]@, cfg, msg, poly_eval(f, k as int) % fp_order(), ct, wit),
    ensures
        all_encrypted(
            ids.push(k),
            sk,
            cfg,
            pki,
            f,
            msg,
            cts.insert(k, ct),
            wits.push(wit),
        ),
        recipients(cts.insert(k, ct), pki, ids.push(k)) == recipients(cts, pki, ids).push(
            EvrfPeerInputs { pk2: pki[k], r_commit: ct.r_commit },
        ),
{
    let (ids2, cts2, wits2) = (ids.push(k), cts.insert(k, ct), wits.push(wit));
    assert forall|l: u32| #[trigger] cts2.contains_key(l) <==> ids2.contains(l) by {
        if ids2.contains(l) {
            let q = choose|q: int| 0 <= q < ids2.len() && ids2[q] == l;
            if q < ids.len() {
                assert(ids[q] == l);
                assert(ids.contains(l));
            }
        }
        if ids.contains(l) {
            let q = choose|q: int| 0 <= q < ids.len() && ids[q] == l;
            assert(ids2[q] == l);
        }
        assert(ids2[ids.len() as int] == k);
    }
    assert forall|q: int| 0 <= q < ids2.len() implies pki.contains_key(#[trigger] ids2[q])
        && encrypts(
        sk,
        pki[ids2[q]]@,
        cfg,
        msg,
        poly_eval(f, ids2[q] as int) % fp_order(),
        cts2[ids2[q]],
        wits2[q],
    ) by {
        if q < ids.len() {
            assert(ids.contains(ids[q]));
            assert(ids2[q] == ids[q] && wits2[q] == wits[q]);
        }
    }
    let (a, b) = (recipients(cts2, pki, ids2), recipients(cts, pki, ids));
    assert forall|q: int| 0 <= q < ids.len() implies #[trigger] a[q] == b[q] by {
        assert(ids.contains(ids[q]));
        assert(ids2[q] == ids[q]);
    }
    assert(a =~= b.push(EvrfPeerInputs { pk2: pki[k], r_commit: ct.r_commit }));
}

/// `1, …, k` without `me`, step by step.
pub proof fn lemma_next_index(k: u32, me: u32)
    ensures
        k < u32::MAX ==> others(first_indices((k + 1) as nat), me) == (if k + 1 == me {
            others(first_indices(k as nat), me)
        } else {
            others(first_indices(k as nat), me).push((k + 1) as u32)
        }),
        forall|l: u32|
            #[trigger] others(first_indices(k as nat), me).contains(l) <==> 1 <= l <= k && l != me,
{
    let s = first_indices(k as nat);
    if k < u32::MAX {
        let s2 = first_indices((k + 1) as nat);
        assert(s2.drop_last() =~= s);
        assert(s2.last() == k + 1);
    }
    lemma_others(s, me);
    assert forall|l: u32| #[trigger] others(s, me).contains(l) <==> 1 <= l <= k && l != me by {
        if 1 <= l <= k {
            assert(s[l - 1] == l);
            assert(s.contains(l));
        }
        if s.contains(l) {
            let q = choose|q: int| 0 <= q < s.len() && s[q] == l;
            assert(s[q] == q + 1);
        }
    }
}

/// Encrypts the shares for all parties but `me`.
fn encrypt_shares(
    me: u32,
    sk: &Fs,
    cfg: &DkgConfig,
    pki: &BTreeMap<u32, GinAffine>,
    poly: &Polynomial,
    msg: &[u8; 32],
) -> (res: GoldenResult<Encrypted>)
    ensures
        match res {
            Ok(r) => {
                let ids = others(first_indices(cfg.n as nat), me);
                &&& dealable_to(cfg.n as int, me, sk@, *cfg, pki@, msg@)
                &&& all_encrypted(
                    ids,
                    sk@,
                    *cfg,
                    pki@,
                    poly@,
                    msg@,
                    r.ciphertexts@,
                    r.wits@,
                )
                &&& r.peers@ == recipients(r.ciphertexts@, pki@, ids)
                &&& r.own_share is Some <==> 1 <= me <= cfg.n
                &&& r.own_share matches Some(x) ==> x@ == poly_eval(poly@, me as int) % fp_order()
            },
            Err(e) => exists|k: u32| #[trigger]
                first_undealable(k, me, sk@, *cfg, pki@, msg@) && undealable_error(k, pki@, e),
        },
{
    let shares = evaluate_shares(poly, cfg.n);
    let ghost f = poly@;
    let mut out = Encrypted {
        ciphertexts: BTreeMap::new(),
        peers: Vec::new(),
        wits: Vec::new(),
        own_share: None,
    };
    let mut i: u32 = 0;
    proof {
        assert(first_indices(0) =~= Seq::<u32>::empty());
        assert(out.peers@ =~= recipients(out.ciphertexts@, pki@, others(first_indices(0), me)));
    }
    while i < cfg.n
        invariant
            i <= cfg.n,
            f == poly@,
            shares@.len() == cfg.n,
            forall|k: int| 0 <= k < cfg.n ==> (#[trigger] shares@[k]).0 == k + 1,
            shares_of(shares@, f),
            dealable_to(i as int, me, sk@, *cfg, pki@, msg@),
            all_encrypted(
                others(first_indices(i as nat), me),
                sk@,
                *cfg,
                pki@,
                f,
                msg@,
                out.ciphertexts@,
                out.wits@,
            ),
            out.peers@ == recipients(
                out.ciphertexts@,
                pki@,
                others(first_indices(i as nat), me),
            ),
            out.own_share is Some <==> 1 <= me <= i,
            out.own_share matches Some(x) ==> x@ == poly_eval(f, me as int) % fp_order(),
        decreases cfg.n - i,
    {
        let (j, x) = shares[i as usize];
        proof {
            lemma_u32_keys();
            lemma_next_index(i, me);
            assert(shares@[i as int].0 == i + 1);
            assert(x@ == poly_eval(f, j as int) % fp_order());
        }
        if j == me {
            out.own_share = Some(x);
        } else {
            let pk = match pki.get(&j) {
                Some(pk) => pk,
                None => {
                    assert(first_undealable(j, me, sk@, *cfg, pki@, msg@));
                    return Err(GoldenError::PartyNotInPki { id: j });
                },
            };
            let (pad, wit) = match try_eval_pad(sk, pk, &cfg.sid, msg, &cfg.beta) {
                Some(r) => r,
                None => {
                    assert(first_undealable(j, me, sk@, *cfg, pki@, msg@));
                    return Err(GoldenError::Internal(String::from_str("no pad")));
                },
            };
            let z = pad.r + x;
            let ct = ShareCiphertext { r_commit: pad.r_commit, z };
            proof {
                lemma_encrypted_step(
                    others(first_indices(i as nat), me),
                    j,
                    sk@,
                    *cfg,
                    pki@,
                    f,
                    msg@,
                    out.ciphertexts@,
                    out.wits@,
                    ct,
                    wit,
                );
            }
            out.ciphertexts.insert(j, ct);
            out.peers.push(EvrfPeerInputs { pk2: *pk, r_commit: pad.r_commit });
            out.wits.push(wit);
        }
        i = i + 1;
    }
    Ok(out)
}

// ─── the dealing ────────────────────────────────────────────────────────────

/// The recipients of dealer `me` in a session: `1, …, n` without `me`.
pub open spec fn dealt_ids(me: u32, cfg: DkgConfig) -> Seq<u32> {
    others(first_indices(cfg.n as nat), me)
}

/// The public inputs of the proof of a dealer.
pub open spec fn dealer_inputs(
    me: RegisteredKey,
    cfg: DkgConfig,
    pki: Map<u32, GinAffine>,
    msg: Seq<u8>,
    cts: Map<u32, ShareCiphertext>,
) -> InputsView {
    InputsView {
        pk1: me.pk@,
        h1m: h1_point(cfg.sid@, msg)->Some_0,
        h2m: h2_point(cfg.sid@, msg)->Some_0,
        beta: cfg.beta@,
        peers: recipients(cts, pki, dealt_ids(me.id, cfg)),
    }
}

/// What there is to say of a proof or of a failure to make one.
pub open spec fn proof_result(
    zk: ZkParams,
    sid: Seq<u8>,
    pubs: InputsView,
    wits: Seq<EvrfWitness>,
    res: GoldenResult<EvrfProof>,
) -> bool {
    if zk.mode is Full {
        full_result(zk, sid, pubs, wits, res)
    } else {
        quick_result(zk, sid, pubs, wits, res)
    }
}

/// The dealing holds the commitment to `f` and the ciphertexts; the dealer keeps its
/// own share.
pub open spec fn deals(
    me: RegisteredKey,
    cfg: DkgConfig,
    f: Seq<int>,
    msg: Seq<u8>,
    cts: Map<u32, ShareCiphertext>,
    d: Dealing,
    own: DealingPrivate,
) -> bool {
    &&& d.dealer == me.id
    &&& d.sid@ == cfg.sid@
    &&& d.msg@ == msg
    &&& commits_to(gouts(d.commitment@), f)
    &&& d.ciphertexts@ == cts
    &&& own.own_share@ == poly_eval(f, me.id as int) % fp_order()
}

/// What there is to say of dealing the polynomial `f` with message `msg`, with the
/// ciphertexts and witnesses that were made.
pub open spec fn dealt(
    me: RegisteredKey,
    sk: int,
    cfg: DkgConfig,
    pki: Map<u32, GinAffine>,
    zk: ZkParams,
    f: Seq<int>,
    msg: Seq<u8>,
    cts: Map<u32, ShareCiphertext>,
    wits: Seq<EvrfWitness>,
    res: GoldenResult<(Dealing, DealingPrivate)>,
) -> bool {
    let pubs = dealer_inputs(me, cfg, pki, msg, cts);
    &&& all_encrypted(dealt_ids(me.id, cfg), sk, cfg, pki, f, msg, cts, wits)
    &&& match res {
        Ok(r) => deals(me, cfg, f, msg, cts, r.0, r.1) && proof_result(
            zk,
            cfg.sid@,
            pubs,
            wits,
            Ok(r.0.proof),
        ),
        Err(e) => proof_result(zk, cfg.sid@, pubs, wits, Err(e)),
    }
}

/// The result of dealing the polynomial `f` with message `msg`.
pub open spec fn deal_result(
    me: RegisteredKey,
    sk: int,
    cfg: DkgConfig,
    pki: Map<u32, GinAffine>,
    zk: ZkParams,
    f: Seq<int>,
    msg: Seq<u8>,
    res: GoldenResult<(Dealing, DealingPrivate)>,
) -> bool {
    if !pki.contains_key(me.id) {
        res == Err::<(Dealing, DealingPrivate), GoldenError>(
            GoldenError::PartyNotInPki { id: me.id },
        )
    } else if !dealable_to(cfg.n as int, me.id, sk, cfg, pki, msg) {
        res matches Err(e) && exists|k: u32| #[trigger]
            first_undealable(k, me.id, sk, cfg, pki, msg) && undealable_error(k, pki, e)
    } else if !(1 <= me.id <= cfg.n) {
        res matches Err(GoldenError::Internal(s)) && s@ == "dealer id "@ + decimal(me.id as nat)
            + " must be in 1..="@ + decimal(cfg.n as nat)
    } else if h1_point(cfg.sid@, msg) is None || h2_point(cfg.sid@, msg) is None {
        res matches Err(GoldenError::Internal(s)) && s@ == "hash to curve failed"@
    } else {
        exists|cts: Map<u32, ShareCiphertext>, wits: Seq<EvrfWitness>| #[trigger]
            dealt(me, sk, cfg, pki, zk, f, msg, cts, wits, res)
    }
}

/// The error for a dealer whose id is no share index.
fn dealer_id_error(id: u32, n: u32) -> (e: GoldenError)
    ensures
        e matches GoldenError::Internal(s) && s@ == "dealer id "@ + decimal(id as nat)
            + " must be in 1..="@ + decimal(n as nat),
{
    let mut s = String::from_str("dealer id ");
    append_decimal(&mut s, id as u64);
    s.append(" must be in 1..=");
    append_decimal(&mut s, n as u64);
    GoldenError::Internal(s)
}

/// The session of an honest dealer: the parties `1, …, n` are registered, with keys
/// of the prime-order subgroup, the dealer's key is that of its secret key, and the
/// parameters cover all keys.
pub open spec fn honest_session(
    me: RegisteredKey,
    sk: int,
    cfg: DkgConfig,
    pki: Map<u32, GinAffine>,
    zk: ZkParams,
) -> bool {
    &&& forall|k: u32| #[trigger] pki.contains_key(k) <==> 1 <= k <= cfg.n
    &&& forall|k: u32| pki.contains_key(k) ==> gin_in_group((#[trigger] pki[k])@)
    &&& pki.contains_key(me.id)
    &&& pki[me.id]@ == me.pk@
    &&& gin_is_pow(me.pk@, sk)
    &&& zk.mode is Full ==> zk.gens.in_group() && gout_is_pow(zk.gens.b@, 1) && zk.lambda >= 255
}

/// Nothing is wrong with the dealing, and its proof passes in exponents.
pub open spec fn verifies_in_exponents(
    d: Dealing,
    cfg: DkgConfig,
    pki: Map<u32, GinAffine>,
    zk: ZkParams,
    expect_zero_secret: bool,
) -> bool {
    &&& structure_error(d, cfg, pki, expect_zero_secret) is None
    &&& hashes_exist(cfg, d)
    &&& proof_in_group(zk, cfg.sid@, dealing_inputs(d, cfg, pki), d.proof)
    &&& exponents_accepted(zk, cfg.sid@, dealing_inputs(d, cfg, pki), d.proof)
}

/// The witnesses of an honest dealer are honest inputs for a proof.
proof fn lemma_honest_inputs(
    me: RegisteredKey,
    sk: Fs,
    cfg: DkgConfig,
    pki: Map<u32, GinAffine>,
    zk: ZkParams,
    f: Seq<int>,
    msg: Seq<u8>,
    cts: Map<u32, ShareCiphertext>,
    wits: Seq<EvrfWitness>,
)
    requires
        honest_session(me, sk@, cfg, pki, zk),
        all_encrypted(dealt_ids(me.id, cfg), sk@, cfg, pki, f, msg, cts, wits),
        zk.mode is Full ==> wits.len() > 0,
        h1_point(cfg.sid@, msg) matches Some(p) && gin_in_group(p),
        h2_point(cfg.sid@, msg) matches Some(p) && gin_in_group(p),
    ensures
        honest_inputs(zk, dealer_inputs(me, cfg, pki, msg, cts), wits),
{
    let ids = dealt_ids(me.id, cfg);
    let pubs = dealer_inputs(me, cfg, pki, msg, cts);
    assert forall|q: int| 0 <= q < wits.len() implies gout_is_pow(
        (#[trigger] pubs.peers[q]).r_commit@,
        wits[q].r@,
    ) by {
        assert(pki.contains_key(ids[q]));
    }
    if zk.mode is Full {
        let n = zk.lambda as nat;
        lemma_order_bits(n);
        let w = start_system(wits.len(), Some(pads(wits))).w->Some_0;
        let bases = input_bases(pubs);
        assert(pki.contains_key(ids[0]));
        assert(wits[0].sk@ == sk@);
        lemma_fs_range(sk);
        lemma_fs_order();
        lemma_others(first_indices(cfg.n as nat), me.id);
        assert forall|q: int| 0 <= q < pubs.peers.len() implies honest_peer(
            w,
            sk@,
            (#[trigger] pubs.peers[q]).pk2@,
            bases,
            committed_vars(wits.len())[q],
            wits[q],
            n,
        ) by {
            assert(pki.contains_key(ids[q]));
            lemma_fp_range(wits[q].s.x);
            assert(wire(committed_vars(wits.len())[q], w) == wits[q].r@);
        }
    }
}

/// Nothing is wrong with what an honest dealer broadcasts.
proof fn lemma_honest_structure(
    me: RegisteredKey,
    sk: int,
    cfg: DkgConfig,
    pki: Map<u32, GinAffine>,
    zk: ZkParams,
    f: Seq<int>,
    msg: Seq<u8>,
    wits: Seq<EvrfWitness>,
    d: Dealing,
    own: DealingPrivate,
    expect_zero_secret: bool,
)
    requires
        honest_session(me, sk, cfg, pki, zk),
        f.len() == cfg.t,
        cfg.t >= 1,
        all_encrypted(dealt_ids(me.id, cfg), sk, cfg, pki, f, msg, d.ciphertexts@, wits),
        deals(me, cfg, f, msg, d.ciphertexts@, d, own),
        expect_zero_secret ==> f[0] == 0,
    ensures
        structure_error(d, cfg, pki, expect_zero_secret) is None,
        dealing_inputs(d, cfg, pki) == dealer_inputs(me, cfg, pki, msg, d.ciphertexts@),
        dealt_poly(d) == f,
{
    let c = gouts(d.commitment@);
    let ids = dealt_ids(me.id, cfg);
    let ks = ordered(pki.dom());
    lemma_commits_logs(c, f);
    lemma_first_indices(cfg.n, pki.dom());
    lemma_next_index(cfg.n, me.id);
    assert(ks == first_indices(cfg.n as nat));
    assert(gout_is_pow(c[0], f[0]));
    assert forall|i: int| 0 <= i < ks.len() implies recipient_error(
        d,
        #[trigger] ks[i],
    ) is None by {
        let k = ks[i];
        if k != me.id {
            assert(ids.contains(k));
            let q = choose|q: int| 0 <= q < ids.len() && ids[q] == k;
            let m = fp_order();
            lemma_fp_order();
            assert(d.ciphertexts@.contains_key(k));
            assert(pki.contains_key(ids[q]));
            let ct = d.ciphertexts@[k];
            let e = poly_eval(f, k as int);
            lemma_gout_log(ct.r_commit@, wits[q].r@);
            lemma_cong_mod(e, m);
            lemma_cong_add(wits[q].r@, wits[q].r@, e % m, e, m);
        }
    }
    lemma_no_recipient_error(d, ks);
    let us = ordered(d.ciphertexts@.dom());
    lemma_ordered_lists(d.ciphertexts@.dom());
    assert forall|i: int| 0 <= i < us.len() implies #[trigger] us[i] != me.id && pki.contains_key(
        us[i],
    ) by {
        assert(us.contains(us[i]));
        assert(d.ciphertexts@.dom().contains(us[i]));
        assert(d.ciphertexts@.contains_key(us[i]));
        assert(ids.contains(us[i]));
    }
    lemma_none_unexpected(me.id, us, pki);
}

pub proof fn lemma_no_recipient_error(d: Dealing, ks: Seq<u32>)
    requires
        forall|i: int| 0 <= i < ks.len() ==> recipient_error(d, #[trigger] ks[i]) is None,
    ensures
        first_recipient_error(d, ks) is None,
    decreases ks.len(),
{
    if ks.len() > 0 {
        let rest = ks.drop_first();
        assert forall|i: int| 0 <= i < rest.len() implies recipient_error(
            d,
            #[trigger] rest[i],
        ) is None by {
            assert(rest[i] == ks[i + 1]);
        }
        assert(recipient_error(d, ks[0]) is None);
        lemma_no_recipient_error(d, rest);
    }
}

pub proof fn lemma_none_unexpected(dealer: u32, ks: Seq<u32>, pki: Map<u32, GinAffine>)
    requires
        forall|i: int|
            0 <= i < ks.len() ==> #[trigger] ks[i] != dealer && pki.contains_key(ks[i]),
    ensures
        first_unexpected(dealer, ks, pki) is None,
    decreases ks.len(),
{
    if ks.len() > 0 {
        let rest = ks.drop_first();
        assert forall|i: int| 0 <= i < rest.len() implies #[trigger] rest[i] != dealer
            && pki.contains_key(rest[i]) by {
            assert(rest[i] == ks[i + 1]);
        }
        assert(ks[0] != dealer);
        lemma_none_unexpected(dealer, rest, pki);
    }
}

/// Makes the dealing of a polynomial, with the given message. Of an honest dealer it
/// verifies.
pub fn deal_polynomial(
    me: &RegisteredKey,
    sk: &Fs,
    cfg: &DkgConfig,
    pki: &BTreeMap<u32, GinAffine>,
    zk: &ZkParams,
    poly: &Polynomial,
    msg: [u8; 32],
    rng: &mut StdRng,
) -> (res: GoldenResult<(Dealing, DealingPrivate)>)
    requires
        params_ok(*zk),
        zk.mode is Full && pki@.contains_key(me.id) ==> !(cfg.n == 1 && me.id == 1),
    ensures
        deal_result(*me, sk@, *cfg, pki@, *zk, poly@, msg@, res),
        honest_session(*me, sk@, *cfg, pki@, *zk) && poly@.len() == cfg.t && cfg.t >= 1 ==> (
        res matches Ok(r) ==> forall|zero: bool|
            (zero ==> poly@[0] == 0) ==> #[trigger] verifies_in_exponents(
                r.0,
                *cfg,
                pki@,
                *zk,
                zero,
            )),
{
    proof {
        lemma_u32_keys();
    }
    if !pki.contains_key(&me.id) {
        return Err(GoldenError::PartyNotInPki { id: me.id });
    }
    let commitment = commit(poly);
    let enc = match encrypt_shares(me.id, sk, cfg, pki, poly, &msg) {
        Ok(enc) => enc,
        Err(e) => {
            return Err(e);
        },
    };
    let own_share = match enc.own_share {
        Some(x) => x,
        None => {
            return Err(dealer_id_error(me.id, cfg.n));
        },
    };
    let (h1m, h2m) = match (try_h1(&cfg.sid.0, &msg), try_h2(&cfg.sid.0, &msg)) {
        (Some(h1m), Some(h2m)) => (h1m, h2m),
        _ => {
            return Err(GoldenError::Internal(String::from_str("hash to curve failed")));
        },
    };
    let ghost cts = enc.ciphertexts@;
    let ghost wits = enc.wits@;
    let pubs = BatchPublicInputs { pk1: me.pk, h1m, h2m, beta: cfg.beta.0, peers: enc.peers };
    proof {
        assert(pubs@ =~= dealer_inputs(*me, *cfg, pki@, msg@, cts));
        lemma_next_index(cfg.n, me.id);
        let ids = dealt_ids(me.id, *cfg);
        if cfg.n > 1 || me.id != 1 {
            let k: u32 = if me.id == 1 {
                2
            } else {
                1
            };
            assert(ids.contains(k));
        }
        if honest_session(*me, sk@, *cfg, pki@, *zk) {
            lemma_honest_inputs(*me, *sk, *cfg, pki@, *zk, poly@, msg@, cts, wits);
        }
    }
    let proof_made = prove_evrf_batch(zk, &cfg.sid, &pubs, enc.wits.as_slice(), rng);
    match proof_made {
        Ok(made) => {
            let d = Dealing {
                dealer: me.id,
                sid: cfg.sid,
                msg,
                commitment,
                ciphertexts: enc.ciphertexts,
                proof: made,
            };
            let own = DealingPrivate { own_share };
            let ghost (gd, go) = (d, own);
            let res: GoldenResult<(Dealing, DealingPrivate)> = Ok((d, own));
            proof {
                assert(dealt(*me, sk@, *cfg, pki@, *zk, poly@, msg@, cts, wits, res));
                if honest_session(*me, sk@, *cfg, pki@, *zk) && poly@.len() == cfg.t && cfg.t >= 1 {
                    assert forall|zero: bool| (zero ==> poly@[0] == 0) implies
                        #[trigger] verifies_in_exponents(gd, *cfg, pki@, *zk, zero) by {
                        lemma_honest_structure(
                            *me,
                            sk@,
                            *cfg,
                            pki@,
                            *zk,
                            poly@,
                            msg@,
                            wits,
                            gd,
                            go,
                            zero,
                        );
                    }
                }
            }
            res
        },
        Err(e) => {
            let res: GoldenResult<(Dealing, DealingPrivate)> = Err(e);
            proof {
                assert(dealt(*me, sk@, *cfg, pki@, *zk, poly@, msg@, cts, wits, res));
            }
            res
        },
    }
}

/// Makes a dealing: shares a secret, `omega` or else a random one, encrypts the
/// shares and proves that the pads are the right ones. Of an honest dealer it
/// verifies.
pub fn create_dealing(
    me: &RegisteredKey,
    sk: &Fs,
    cfg: &DkgConfig,
    pki: &BTreeMap<u32, GinAffine>,
    zk: &ZkParams,
    rng: &mut StdRng,
    omega: Option<Fp>,
) -> (res: GoldenResult<(Dealing, DealingPrivate)>)
    requires
        params_ok(*zk),
        pki@.contains_key(me.id) ==> 1 <= cfg.t <= cfg.n,
        zk.mode is Full && pki@.contains_key(me.id) ==> !(cfg.n == 1 && me.id == 1),
    ensures
        !pki@.contains_key(me.id) ==> res == Err::<(Dealing, DealingPrivate), GoldenError>(
            GoldenError::PartyNotInPki { id: me.id },
        ),
        pki@.contains_key(me.id) ==> exists|f: Seq<int>, msg: Seq<u8>|
            f.len() == cfg.t && msg.len() == 32 && (omega matches Some(w) ==> f[0] == w@)
                && #[trigger] deal_result(*me, sk@, *cfg, pki@, *zk, f, msg, res),
        honest_session(*me, sk@, *cfg, pki@, *zk) ==> (res matches Ok(r) ==> {
            &&& verifies_in_exponents(r.0, *cfg, pki@, *zk, false)
            &&& (omega matches Some(w) && w@ == 0) ==> verifies_in_exponents(
                r.0,
                *cfg,
                pki@,
                *zk,
                true,
            )
        }),
{
    proof {
        lemma_u32_keys();
    }
    if !pki.contains_key(&me.id) {
        return Err(GoldenError::PartyNotInPki { id: me.id });
    }
    let secret = match omega {
        Some(w) => w,
        None => Fp::rand(rng),
    };
    let poly = Polynomial::random_with_secret(secret, cfg.t, rng);
    let msg = random_bytes(rng);
    let res = deal_polynomial(me, sk, cfg, pki, zk, &poly, msg, rng);
    assert(deal_result(*me, sk@, *cfg, pki@, *zk, poly@, msg@, res));
    res
}

/// A dealing for a refresh: it shares zero.
pub fn refresh_dealing(
    me: &RegisteredKey,
    sk: &Fs,
    cfg: &DkgConfig,
    pki: &BTreeMap<u32, GinAffine>,
    zk: &ZkParams,
    rng: &mut StdRng,
) -> (res: GoldenResult<(Dealing, DealingPrivate)>)
    requires
        params_ok(*zk),
        pki@.contains_key(me.id) ==> 1 <= cfg.t <= cfg.n,
        zk.mode is Full && pki@.contains_key(me.id) ==> !(cfg.n == 1 && me.id == 1),
    ensures
        !pki@.contains_key(me.id) ==> res == Err::<(Dealing, DealingPrivate), GoldenError>(
            GoldenError::PartyNotInPki { id: me.id },
        ),
        pki@.contains_key(me.id) ==> exists|f: Seq<int>, msg: Seq<u8>|
            f.len() == cfg.t && msg.len() == 32 && f[0] == 0 && #[trigger] deal_result(
                *me,
                sk@,
                *cfg,
                pki@,
                *zk,
                f,
                msg,
                res,
            ),
        honest_session(*me, sk@, *cfg, pki@, *zk) ==> (res matches Ok(r)
            ==> verifies_in_exponents(r.0, *cfg, pki@, *zk, true)),
{
    create_dealing(me, sk, cfg, pki, zk, rng, Some(Fp::zero()))
}

} // verus!
