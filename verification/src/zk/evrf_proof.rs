//! Proofs that pads are the right ones.
//!
//! One proof covers all recipients of a dealer. The commitments `R_j = g_out^{r_j}` are
//! the commitments to the committed values of the circuit, with zero blinding.
//!
//! * `ZkMode::Full` — the Bulletproofs proof, which anyone can verify.
//! * `ZkMode::InsecureQuick` — a Schnorr proof of knowledge of every `r_j` in its place.
//!   It shows that the dealer knows the pads, not that they come from the keys: only
//!   good for fast tests of the protocol.
use crate::algebra::{
    cong, is_prime, lemma_cong_add, lemma_cong_diff, lemma_cong_mod, lemma_cong_small,
    lemma_cong_sub, lemma_mod_reduced,
};
use crate::curves::{
    gout_identity, gout_in_group, gout_is_pow, gout_log, gout_msm, gout_mul, gout_pow, gout_scale,
    gout_sum, gouts_in_group, lemma_gout_eq, lemma_gout_log, Fp, GinAffine, GinPoint, GoutAffine,
    GoutPoint,
};
use crate::errors::{GoldenError, GoldenResult};
use crate::evrf::{EvrfPublicInputs, EvrfWitness, SessionId};
use crate::field::{fp_order, lemma_fp_order, lemma_fp_range};
use crate::transcript::{
    ev_bytes, ev_challenge, ev_field, ev_gin, ev_gout, ev_u64, fp_challenge, transcript_log,
    TranscriptEvent, TranscriptExt,
};
use crate::zk::bp_laws::law_honest_proof_verifies;
use crate::zk::bp_protocol::{
    batch_weights, check_bases, check_fits, check_of, check_scalars, check_vanishes, combined_check,
    honest_proof, lemma_pad_len, pad_len, BlindingsView, CheckView,
};
use crate::zk::bp_r1cs::{
    blindings_fit, check_views, point_is, proof_made, start_context, too_large, verify_batch,
    Prover, R1CSProof, VerificationCheck, Verifier,
};
use crate::zk::evrf_circuit::{
    batch_gens_capacity, batch_system, build_batch_circuit, digits, gates_estimate, honest_batch,
    law_capacity_suffices, peer_gates, peer_keys, peer_usable, peers_usable, shared_gates, Bases,
    DEFAULT_LAMBDA, EvrfPeerInputs,
};
use crate::zk::gadgets::{offset_hash, system, try_offset_point, System};
use crate::zk::generators::{labels_in_group, pedersen, BpGens};
use crate::zk::honest::good;
use crate::zk::ipa::{length_mismatch, rounds_fit};
use crate::zk::r1cs::{
    circuit_ok, gates_hold, satisfied, Circuit, ConstraintSystem, Values, Variable,
};
use crate::zk::shape::law_prover_and_verifier_build_the_same_circuit;
use merlin::Transcript;
use rand::rngs::StdRng;
use std::sync::Arc;
use crate::zk::sound::pads_bound;
use vstd::arithmetic::power2::{lemma_pow2, pow2};
use crate::zk::usable::peers_are_usable;
use vstd::prelude::*;
use vstd::string::{is_ascii_spec_bytes, StringExecFns, StringSliceAdditionalSpecFns};

verus! {

#[derive(Clone, Copy, Debug, PartialEq, Eq, Structural)]
pub enum ZkMode {
    /// The full proof, which anyone can verify.
    Full,
    /// Schnorr proofs of knowledge of the pads. Only for fast tests.
    InsecureQuick,
}

/// Public parameters of the proofs.
#[derive(Clone)]
pub struct ZkParams {
    pub mode: ZkMode,
    pub gens: Arc<BpGens>,
    pub lambda: usize,
    /// The largest number of recipients that one proof covers.
    pub max_peers: usize,
}

/// The parameters fit together: there are as many generators as the capacity says,
/// and the circuit for the largest number of recipients has a size.
pub open spec fn params_ok(params: ZkParams) -> bool {
    &&& params.gens.well_formed()
    &&& params.mode is Full ==> pad_len(
        gates_estimate(params.lambda as nat, params.max_peers as nat),
    ) <= usize::MAX
}

/// The number itself, but at least one.
pub open spec fn at_least_one(n: usize) -> usize {
    if n == 0 {
        1
    } else {
        n
    }
}

impl ZkParams {
    /// Parameters of the full proof for up to `max_peers` recipients.
    pub fn full(max_peers: usize) -> (r: Self)
        requires
            pad_len(gates_estimate(255, at_least_one(max_peers) as nat)) <= usize::MAX,
        ensures
            params_ok(r),
            r.mode is Full,
            r.lambda == 255,
            r.max_peers == at_least_one(max_peers),
            r.gens.gens_capacity == pad_len(gates_estimate(255, r.max_peers as nat)),
            r.gens.labelled(),
            r.gens.in_group() <==> labels_in_group(r.gens.gens_capacity as nat),
    {
        ZkParams::with_lambda(DEFAULT_LAMBDA, max_peers)
    }

    /// [`ZkParams::full`] with another number of bits, for tests with small
    /// witnesses.
    pub fn with_lambda(lambda: usize, max_peers: usize) -> (r: Self)
        requires
            pad_len(gates_estimate(lambda as nat, at_least_one(max_peers) as nat)) <= usize::MAX,
        ensures
            params_ok(r),
            r.mode is Full,
            r.lambda == lambda,
            r.max_peers == at_least_one(max_peers),
            r.gens.gens_capacity == pad_len(gates_estimate(lambda as nat, r.max_peers as nat)),
            r.gens.labelled(),
            r.gens.in_group() <==> labels_in_group(r.gens.gens_capacity as nat),
    {
        let max_peers = if max_peers == 0 {
            1
        } else {
            max_peers
        };
        let cap = batch_gens_capacity(lambda, max_peers);
        proof {
            lemma_pad_len(gates_estimate(lambda as nat, max_peers as nat));
        }
        ZkParams { mode: ZkMode::Full, gens: Arc::new(BpGens::new(cap)), lambda, max_peers }
    }

    /// Parameters of the quick mode.
    pub fn insecure_quick() -> (r: Self)
        ensures
            params_ok(r),
            r.mode is InsecureQuick,
            r.gens.gens_capacity == 1,
            r.gens.labelled(),
            r.lambda == 0,
            r.max_peers == 0,
    {
        proof {
            lemma_pow2(0);
            vstd::arithmetic::power::lemma_pow0(2);
            assert(pow2(0) == 1);
        }
        ZkParams {
            mode: ZkMode::InsecureQuick,
            gens: Arc::new(BpGens::new(1)),
            lambda: 0,
            max_peers: 0,
        }
    }
}

/// Schnorr proof of knowledge of `r` for `R = g_out^r`.
#[derive(Clone, Copy, Debug)]
pub struct SchnorrR {
    pub commitment: GoutAffine,
    pub response: Fp,
}

/// The proof of a dealing.
#[derive(Clone, Debug)]
pub enum EvrfProof {
    Full(R1CSProof),
    /// One Schnorr proof for every recipient, in their order.
    InsecureQuick(Vec<SchnorrR>),
}

/// The public inputs of a proof: the dealer's key, the points of the message, `β`,
/// and the key and the pad commitment of every recipient.
#[derive(Clone, Debug)]
pub struct BatchPublicInputs {
    pub pk1: GinAffine,
    pub h1m: GinAffine,
    pub h2m: GinAffine,
    pub beta: Fp,
    pub peers: Vec<EvrfPeerInputs>,
}

/// The public inputs in a contract.
#[verifier::ext_equal]
pub struct InputsView {
    pub pk1: GinPoint,
    pub h1m: GinPoint,
    pub h2m: GinPoint,
    pub beta: int,
    pub peers: Seq<EvrfPeerInputs>,
}

impl View for BatchPublicInputs {
    type V = InputsView;

    open spec fn view(&self) -> InputsView {
        InputsView {
            pk1: self.pk1@,
            h1m: self.h1m@,
            h2m: self.h2m@,
            beta: self.beta@,
            peers: self.peers@,
        }
    }
}

// ─── transcripts ────────────────────────────────────────────────────────────

/// The transcript after the keys and pad commitments of the recipients.
pub open spec fn peers_log(log: Seq<TranscriptEvent>, peers: Seq<EvrfPeerInputs>) -> Seq<
    TranscriptEvent,
>
    decreases peers.len(),
{
    if peers.len() == 0 {
        log
    } else {
        peers_log(log, peers.drop_last()).push(
            ev_gin("PK2".spec_bytes(), peers.last().pk2@),
        ).push(ev_gout("R".spec_bytes(), peers.last().r_commit@))
    }
}

/// The transcript of a proof before its messages: it is bound to the session, to the
/// number of bits and to all public inputs.
pub open spec fn inputs_log(
    lambda: usize,
    sid: Seq<u8>,
    pubs: InputsView,
) -> Seq<TranscriptEvent> {
    peers_log(
        seq![
            TranscriptEvent::Append {
                label: "dom-sep".spec_bytes(),
                message: "golden-nidkg/evrf-batch-proof/v1".spec_bytes(),
            },
            ev_bytes("sid".spec_bytes(), sid),
            ev_u64("lambda".spec_bytes(), lambda as u64),
            ev_gin("PK1".spec_bytes(), pubs.pk1),
            ev_gin("H1m".spec_bytes(), pubs.h1m),
            ev_gin("H2m".spec_bytes(), pubs.h2m),
            ev_field("beta".spec_bytes(), pubs.beta),
            ev_u64("n_peers".spec_bytes(), pubs.peers.len() as u64),
        ],
        pubs.peers,
    )
}

/// A fresh transcript, bound to all the public inputs and to the number of bits.
fn batch_transcript(params: &ZkParams, sid: &SessionId, pubs: &BatchPublicInputs) -> (r: Transcript)
    ensures
        transcript_log(r) == inputs_log(params.lambda, sid@, pubs@),
{
    proof {
        reveal_strlit("golden-nidkg/evrf-batch-proof/v1");
        is_ascii_spec_bytes("golden-nidkg/evrf-batch-proof/v1");
    }
    let mut t = Transcript::new("golden-nidkg/evrf-batch-proof/v1".as_bytes());
    t.append_bytes("sid".as_bytes(), &sid.0);
    TranscriptExt::append_u64(&mut t, "lambda".as_bytes(), params.lambda as u64);
    t.append_gin("PK1".as_bytes(), &pubs.pk1);
    t.append_gin("H1m".as_bytes(), &pubs.h1m);
    t.append_gin("H2m".as_bytes(), &pubs.h2m);
    t.append_fp("beta".as_bytes(), &pubs.beta);
    TranscriptExt::append_u64(&mut t, "n_peers".as_bytes(), pubs.peers.len() as u64);
    let ghost log0 = transcript_log(t);
    let ghost ps = pubs.peers@;
    let mut i: usize = 0;
    proof {
        assert(ps.take(0) =~= Seq::<EvrfPeerInputs>::empty());
    }
    while i < pubs.peers.len()
        invariant
            i <= ps.len(),
            ps == pubs.peers@,
            transcript_log(t) == peers_log(log0, ps.take(i as int)),
        decreases ps.len() - i,
    {
        t.append_gin("PK2".as_bytes(), &pubs.peers[i].pk2);
        t.append_gout("R".as_bytes(), &pubs.peers[i].r_commit);
        proof {
            assert(ps.take(i + 1).drop_last() =~= ps.take(i as int));
            assert(ps.take(i + 1).last() == ps[i as int]);
        }
        i = i + 1;
    }
    proof {
        assert(ps.take(i as int) =~= ps);
        assert(log0 =~= seq![
            TranscriptEvent::Append {
                label: "dom-sep".spec_bytes(),
                message: "golden-nidkg/evrf-batch-proof/v1".spec_bytes(),
            },
            ev_bytes("sid".spec_bytes(), sid@),
            ev_u64("lambda".spec_bytes(), params.lambda as u64),
            ev_gin("PK1".spec_bytes(), pubs.pk1@),
            ev_gin("H1m".spec_bytes(), pubs.h1m@),
            ev_gin("H2m".spec_bytes(), pubs.h2m@),
            ev_field("beta".spec_bytes(), pubs.beta@),
            ev_u64("n_peers".spec_bytes(), pubs.peers@.len() as u64),
        ]);
    }
    t
}

// ─── quick mode ─────────────────────────────────────────────────────────────

/// The transcript after the first `i` Schnorr proofs.
pub open spec fn quick_log(
    log: Seq<TranscriptEvent>,
    peers: Seq<EvrfPeerInputs>,
    proofs: Seq<SchnorrR>,
    i: nat,
) -> Seq<TranscriptEvent>
    decreases i,
{
    if i == 0 {
        log
    } else {
        quick_log(log, peers, proofs, (i - 1) as nat).push(
            ev_gout("Rj".spec_bytes(), peers[i - 1].r_commit@),
        ).push(ev_gout("commit".spec_bytes(), proofs[i - 1].commitment@)).push(
            ev_challenge("c".spec_bytes()),
        )
    }
}

/// The transcript when the challenge of proof `i` is drawn.
pub open spec fn quick_message(
    log: Seq<TranscriptEvent>,
    peers: Seq<EvrfPeerInputs>,
    proofs: Seq<SchnorrR>,
    i: nat,
) -> Seq<TranscriptEvent> {
    quick_log(log, peers, proofs, i).push(
        ev_gout("Rj".spec_bytes(), peers[i as int].r_commit@),
    ).push(ev_gout("commit".spec_bytes(), proofs[i as int].commitment@))
}

/// The challenge of proof `i`.
pub open spec fn quick_challenge(
    log: Seq<TranscriptEvent>,
    peers: Seq<EvrfPeerInputs>,
    proofs: Seq<SchnorrR>,
    i: nat,
) -> int {
    fp_challenge(quick_message(log, peers, proofs, i), "c".spec_bytes())
}

/// The equation of proof `i`: `g^s = K · R^c`.
pub open spec fn quick_holds(
    log: Seq<TranscriptEvent>,
    peers: Seq<EvrfPeerInputs>,
    proofs: Seq<SchnorrR>,
    i: int,
) -> bool {
    gout_pow(proofs[i].response@) == gout_sum(
        proofs[i].commitment@,
        gout_scale(
            peers[i].r_commit@,
            quick_challenge(log, peers, proofs, i as nat),
        ),
    )
}

/// The equation of proof `i` in exponents.
pub open spec fn quick_exponents(
    log: Seq<TranscriptEvent>,
    peers: Seq<EvrfPeerInputs>,
    proofs: Seq<SchnorrR>,
    i: int,
) -> bool {
    cong(
        proofs[i].response@,
        gout_log(proofs[i].commitment@) + quick_challenge(log, peers, proofs, i as nat) * gout_log(
            peers[i].r_commit@,
        ),
        fp_order(),
    )
}

/// The points of proof `i` are in the prime-order group.
pub open spec fn quick_in_group(
    peers: Seq<EvrfPeerInputs>,
    proofs: Seq<SchnorrR>,
    i: int,
) -> bool {
    gout_in_group(proofs[i].commitment@) && gout_in_group(peers[i].r_commit@)
}

/// A transcript depends on the proofs that it has seen only.
proof fn lemma_quick_log_same(
    log: Seq<TranscriptEvent>,
    peers: Seq<EvrfPeerInputs>,
    a: Seq<SchnorrR>,
    b: Seq<SchnorrR>,
    i: nat,
)
    requires
        i <= a.len(),
        i <= b.len(),
        forall|k: int| 0 <= k < i ==> #[trigger] a[k] == b[k],
    ensures
        quick_log(log, peers, a, i) == quick_log(log, peers, b, i),
    decreases i,
{
    if i > 0 {
        lemma_quick_log_same(log, peers, a, b, (i - 1) as nat);
        assert(a[i - 1] == b[i - 1]);
    }
}

/// The Schnorr proofs for the pads of the witnesses, with the given nonces.
pub open spec fn quick_made(
    log: Seq<TranscriptEvent>,
    peers: Seq<EvrfPeerInputs>,
    wits: Seq<EvrfWitness>,
    nonces: Seq<int>,
    proofs: Seq<SchnorrR>,
) -> bool {
    &&& proofs.len() == peers.len()
    &&& forall|i: int|
        0 <= i < proofs.len() ==> {
            &&& gout_is_pow((#[trigger] proofs[i]).commitment@, nonces[i])
            &&& proofs[i].response@ == (nonces[i] + quick_challenge(
                log,
                peers,
                proofs,
                i as nat,
            ) * wits[i].r@) % fp_order()
        }
}

/// Honest Schnorr proofs hold: for commitments to the pads of the witnesses, every
/// equation holds in exponents.
pub proof fn law_honest_quick_proofs_hold(
    log: Seq<TranscriptEvent>,
    peers: Seq<EvrfPeerInputs>,
    wits: Seq<EvrfWitness>,
    nonces: Seq<int>,
    proofs: Seq<SchnorrR>,
)
    requires
        quick_made(log, peers, wits, nonces, proofs),
        forall|i: int|
            0 <= i < peers.len() ==> gout_is_pow((#[trigger] peers[i]).r_commit@, wits[i].r@),
    ensures
        forall|i: int|
            0 <= i < peers.len() ==> #[trigger] quick_in_group(peers, proofs, i)
                && quick_exponents(log, peers, proofs, i),
{
    assert forall|i: int| 0 <= i < peers.len() implies #[trigger] quick_in_group(peers, proofs, i)
        && quick_exponents(log, peers, proofs, i) by {
        let p = proofs[i];
        assert(gout_is_pow(p.commitment@, nonces[i]));
        assert(gout_is_pow(peers[i].r_commit@, wits[i].r@));
        lemma_gout_log(p.commitment@, nonces[i]);
        lemma_gout_log(peers[i].r_commit@, wits[i].r@);
        lemma_fp_order();
        lemma_cong_mod(
            nonces[i] + quick_challenge(log, peers, proofs, i as nat) * wits[i].r@,
            fp_order(),
        );
    }
}

/// The Schnorr proofs with the given nonces.
fn quick_proofs(
    t: Transcript,
    peers: &[EvrfPeerInputs],
    wits: &[EvrfWitness],
    nonces: &[Fp],
) -> (r: Vec<SchnorrR>)
    requires
        wits@.len() == peers@.len(),
        nonces@.len() == peers@.len(),
    ensures
        quick_made(transcript_log(t), peers@, wits@, crate::field::fps(nonces@), r@),
{
    let mut t = t;
    let ghost log = transcript_log(t);
    let ghost ks = crate::field::fps(nonces@);
    let mut out: Vec<SchnorrR> = Vec::with_capacity(peers.len());
    let mut i: usize = 0;
    while i < peers.len()
        invariant
            i <= peers@.len(),
            wits@.len() == peers@.len(),
            nonces@.len() == peers@.len(),
            ks == crate::field::fps(nonces@),
            out@.len() == i,
            transcript_log(t) == quick_log(log, peers@, out@, i as nat),
            forall|k: int|
                0 <= k < i ==> {
                    &&& gout_is_pow((#[trigger] out@[k]).commitment@, ks[k])
                    &&& out@[k].response@ == (ks[k] + quick_challenge(
                        log,
                        peers@,
                        out@,
                        k as nat,
                    ) * wits@[k].r@) % fp_order()
                },
        decreases peers@.len() - i,
    {
        let ghost before = out@;
        t.append_gout("Rj".as_bytes(), &peers[i].r_commit);
        let k = nonces[i];
        let commitment = gout_mul(&k);
        t.append_gout("commit".as_bytes(), &commitment);
        let c = t.challenge_fp("c".as_bytes());
        let e = c * wits[i].r;
        let response = k + e;
        out.push(SchnorrR { commitment, response });
        proof {
            let m = fp_order();
            lemma_fp_order();
            lemma_cong_mod(c@ * wits@[i as int].r@, m);
            lemma_cong_add(k@, k@, e@, c@ * wits@[i as int].r@, m);
            lemma_quick_log_same(log, peers@, before, out@, i as nat);
            assert forall|j: int| 0 <= j < i + 1 implies {
                &&& gout_is_pow((#[trigger] out@[j]).commitment@, ks[j])
                &&& out@[j].response@ == (ks[j] + quick_challenge(log, peers@, out@, j as nat)
                    * wits@[j].r@) % fp_order()
            } by {
                if j < i {
                    assert(out@[j] == before[j]);
                    lemma_quick_log_same(log, peers@, before, out@, j as nat);
                }
            }
        }
        i = i + 1;
    }
    out
}

/// Verifies the Schnorr proofs.
fn quick_verify(start: Transcript, peers: &[EvrfPeerInputs], proofs: &[SchnorrR]) -> (r: bool)
    requires
        proofs@.len() == peers@.len(),
    ensures
        r == (forall|i: int|
            0 <= i < peers@.len() ==> #[trigger] quick_holds(
                transcript_log(start),
                peers@,
                proofs@,
                i,
            )),
        (forall|i: int| 0 <= i < peers@.len() ==> #[trigger] quick_in_group(peers@, proofs@, i))
            ==> r == (forall|i: int|
            0 <= i < peers@.len() ==> #[trigger] quick_exponents(
                transcript_log(start),
                peers@,
                proofs@,
                i,
            )),
{
    let mut t = start;
    let ghost log = transcript_log(start);
    let ghost grouped = forall|i: int|
        0 <= i < peers@.len() ==> #[trigger] quick_in_group(peers@, proofs@, i);
    let mut i: usize = 0;
    while i < peers.len()
        invariant
            i <= peers@.len(),
            proofs@.len() == peers@.len(),
            log == transcript_log(start),
            transcript_log(t) == quick_log(log, peers@, proofs@, i as nat),
            grouped == (forall|i: int|
                0 <= i < peers@.len() ==> #[trigger] quick_in_group(peers@, proofs@, i)),
            forall|k: int| 0 <= k < i ==> #[trigger] quick_holds(log, peers@, proofs@, k),
            grouped ==> forall|k: int|
                0 <= k < i ==> #[trigger] quick_exponents(log, peers@, proofs@, k),
        decreases peers@.len() - i,
    {
        let sp = proofs[i];
        t.append_gout("Rj".as_bytes(), &peers[i].r_commit);
        t.append_gout("commit".as_bytes(), &sp.commitment);
        let c = t.challenge_fp("c".as_bytes());
        let lhs = gout_mul(&sp.response);
        let rc = peers[i].r_commit.times(&c);
        let rhs = sp.commitment.plus(&rc);
        proof {
            assert(c@ == quick_challenge(log, peers@, proofs@, i as nat));
            if grouped {
                assert(quick_in_group(peers@, proofs@, i as int));
                let m = fp_order();
                lemma_fp_order();
                let (lk, lr) = (gout_log(sp.commitment@), gout_log(peers@[i as int].r_commit@));
                lemma_gout_log(lhs@, sp.response@);
                lemma_gout_log(rc@, (lr * c@) % m);
                lemma_gout_log(rhs@, (lk + (lr * c@) % m) % m);
                lemma_gout_eq(lhs@, rhs@);
                lemma_cong_mod(lr * c@, m);
                lemma_cong_add(lk, lk, (lr * c@) % m, lr * c@, m);
                assert(lr * c@ == c@ * lr) by (nonlinear_arith);
                lemma_fp_range(sp.response);
                lemma_mod_reduced(sp.response@, m);
            }
        }
        if lhs != rhs {
            proof {
                assert(!quick_holds(log, peers@, proofs@, i as int));
                assert(grouped ==> !quick_exponents(log, peers@, proofs@, i as int));
            }
            return false;
        }
        i = i + 1;
    }
    true
}

// ─── full proofs ────────────────────────────────────────────────────────────

/// The pad commitments of the recipients.
pub open spec fn pad_commitments(peers: Seq<EvrfPeerInputs>) -> Seq<GoutPoint> {
    Seq::new(peers.len(), |i: int| peers[i].r_commit@)
}

/// The pads of the witnesses.
pub open spec fn pads(wits: Seq<EvrfWitness>) -> Seq<int> {
    Seq::new(wits.len(), |i: int| wits[i].r@)
}

/// The commitments to the pads, with zero blinding.
pub open spec fn commitments_made(gens: BpGens, wits: Seq<EvrfWitness>) -> Seq<GoutPoint> {
    Seq::new(wits.len(), |i: int| pedersen(gens.b@, gens.b_blinding@, wits[i].r@, 0))
}

/// The transcript after the commitments.
pub open spec fn committed_log(log: Seq<TranscriptEvent>, points: Seq<GoutPoint>) -> Seq<
    TranscriptEvent,
>
    decreases points.len(),
{
    if points.len() == 0 {
        log
    } else {
        committed_log(log, points.drop_last()).push(ev_gout("V".spec_bytes(), points.last()))
    }
}

/// The transcript of a full proof with the given commitments, before the circuit.
#[verifier::opaque]
pub open spec fn full_log(
    params: ZkParams,
    sid: Seq<u8>,
    pubs: InputsView,
    points: Seq<GoutPoint>,
) -> Seq<TranscriptEvent> {
    committed_log(
        start_context(*params.gens, inputs_log(params.lambda, sid, pubs)).log,
        points,
    )
}

/// The variables of `m` committed values.
pub open spec fn committed_vars(m: nat) -> Seq<Variable> {
    Seq::new(m, |j: int| Variable::Committed(j as usize))
}

/// A system with `m` committed values and nothing else; the prover knows the values.
pub open spec fn start_system(m: nat, vs: Option<Seq<int>>) -> System {
    System {
        c: Circuit { n_mul: 0, n_committed: m, constraints: Seq::empty() },
        w: match vs {
            Some(v) => Some(
                Values { a_l: Seq::empty(), a_r: Seq::empty(), a_o: Seq::empty(), v },
            ),
            None => None,
        },
    }
}

/// The points that pads are computed from, and the combiner.
pub open spec fn input_bases(pubs: InputsView) -> Bases {
    Bases { h1: pubs.h1m, h2: pubs.h2m, beta: pubs.beta }
}

/// The circuit of the public inputs, as a verifier builds it.
#[verifier::opaque]
pub open spec fn evrf_circuit(pubs: InputsView, lambda: nat) -> Circuit {
    let m = pubs.peers.len();
    batch_system(
        start_system(m, None),
        pubs.pk1,
        None,
        peer_keys(pubs.peers),
        input_bases(pubs),
        committed_vars(m),
        lambda,
    ).c
}

/// The circuit of the public inputs binds the pads: whatever values satisfy it, the
/// first key has a secret key, and the committed values are its pads with the
/// recipients' keys.
#[verifier::opaque]
pub open spec fn circuit_binds(pubs: InputsView, lambda: nat) -> bool {
    pads_bound(
        evrf_circuit(pubs, lambda),
        pubs.pk1,
        peer_keys(pubs.peers),
        input_bases(pubs),
        committed_vars(pubs.peers.len()),
    )
}

/// The values of the wires, as the prover fills them in.
#[verifier::opaque]
pub open spec fn evrf_values(
    pubs: InputsView,
    wits: Seq<EvrfWitness>,
    lambda: nat,
) -> Values {
    let m = pubs.peers.len();
    batch_system(
        start_system(m, Some(pads(wits))),
        pubs.pk1,
        Some(wits[0].sk@),
        peer_keys(pubs.peers),
        input_bases(pubs),
        committed_vars(m),
        lambda,
    ).w->Some_0
}

/// The number of gates for `peers` recipients.
pub open spec fn batch_gates(lambda: nat, peers: nat) -> nat {
    shared_gates(lambda) + peers * peer_gates(lambda)
}

/// The points of the circuit can be computed: those of the tables, and for a prover, who
/// knows `sk`, those of the wires. With points of the curve they always can.
pub open spec fn inputs_usable(sk: Option<int>, pubs: InputsView, lambda: nat) -> bool {
    peers_usable(sk, peer_keys(pubs.peers), input_bases(pubs), lambda)
}

/// The secret key of a prover.
pub open spec fn prover_secret(wits: Seq<EvrfWitness>) -> Option<int> {
    Some(wits[0].sk@)
}

/// The gates for the recipients fit where those for the largest number do.
pub proof fn lemma_gates_fit(lambda: nat, peers: nat, max: nat)
    requires
        peers <= max,
    ensures
        batch_gates(lambda, peers) <= pad_len(batch_gates(lambda, peers)),
        pad_len(batch_gates(lambda, peers)) <= pad_len(gates_estimate(lambda, max)),
{
    law_capacity_suffices(lambda, max);
    let (a, b) = (batch_gates(lambda, peers), batch_gates(lambda, max));
    let k = peer_gates(lambda);
    assert(peers * k <= max * k) by (nonlinear_arith)
        requires
            peers <= max,
            k >= 0,
    ;
    lemma_pad_len(a);
    lemma_pad_len(b);
    let j = choose|j: nat| pad_len(b) == pow2(j);
    assert(pow2(j) >= a);
}

/// A prover that has committed to the pads and built the circuit.
fn full_prover<'g>(
    params: &'g ZkParams,
    sid: &SessionId,
    pubs: &BatchPublicInputs,
    wits: &[EvrfWitness],
) -> (r: Prover<'g>)
    requires
        params_ok(*params),
        params.mode is Full,
        pubs.peers@.len() <= params.max_peers,
        wits@.len() == pubs.peers@.len(),
        wits@.len() > 0,
        inputs_usable(prover_secret(wits@), pubs@, params.lambda as nat),
        offset_hash() is Some,
    ensures
        r.well_formed(),
        r.context().gens == *params.gens,
        r.context().log == full_log(*params, sid@, pubs@, commitments_made(*params.gens, wits@)),
        r.context().blindings == Seq::new(wits@.len(), |i: int| 0int),
        r.circuit() == evrf_circuit(pubs@, params.lambda as nat),
        r.circuit().n_mul == batch_gates(params.lambda as nat, pubs.peers@.len()),
        r.circuit().n_committed == pubs.peers@.len(),
        r.values() == Some(evrf_values(pubs@, wits@, params.lambda as nat)),
        honest_batch(
            start_system(wits@.len(), Some(pads(wits@))).w->Some_0,
            pubs.pk1@,
            pubs.peers@,
            input_bases(pubs@),
            committed_vars(wits@.len()),
            wits@,
            params.lambda as nat,
        ) ==> satisfied(r.circuit(), r.values()->Some_0) && (r.values()->Some_0).v == pads(wits@),
        params.gens.in_group() ==> forall|i: int|
            0 <= i < wits@.len() ==> point_is(
                #[trigger] commitments_made(*params.gens, wits@)[i],
                gout_log(params.gens.b@) * wits@[i].r@,
            ),
{
    proof {
        reveal(evrf_circuit);
        reveal(evrf_values);
        reveal(full_log);
    }
    let t = batch_transcript(params, sid, pubs);
    let gens: &BpGens = &params.gens;
    let ghost points = commitments_made(*gens, wits@);
    let ghost rs = pads(wits@);
    let mut prover = Prover::new(gens, t);
    let ghost cx0 = prover.context();
    let zero = Fp::zero();
    let mut r_vars: Vec<Variable> = Vec::with_capacity(wits.len());
    let mut i: usize = 0;
    proof {
        assert(points.take(0) =~= Seq::<GoutPoint>::empty());
        assert(rs.take(0) =~= Seq::<int>::empty());
        assert(Seq::new(0, |i: int| 0int) =~= Seq::<int>::empty());
    }
    while i < wits.len()
        invariant
            i <= wits@.len(),
            points == commitments_made(*gens, wits@),
            rs == pads(wits@),
            zero@ == 0,
            cx0 == start_context(*gens, inputs_log(params.lambda, sid@, pubs@)),
            prover.well_formed(),
            prover.context().gens == *gens,
            prover.context().log == committed_log(cx0.log, points.take(i as int)),
            prover.context().blindings == Seq::new(i as nat, |i: int| 0int),
            system(prover) == start_system(i as nat, Some(rs.take(i as int))),
            r_vars@.len() == i,
            forall|k: int|
                0 <= k < i ==> #[trigger] r_vars@[k] == Variable::Committed(k as usize),
            gens.in_group() ==> forall|k: int|
                0 <= k < i ==> point_is(
                    #[trigger] points[k],
                    gout_log(gens.b@) * wits@[k].r@,
                ),
        decreases wits@.len() - i,
    {
        let (p, v) = prover.commit(wits[i].r, zero);
        r_vars.push(v);
        proof {
            assert(points.take(i + 1).drop_last() =~= points.take(i as int));
            assert(points.take(i + 1).last() == p@);
            assert(rs.take(i + 1) =~= rs.take(i as int).push(wits@[i as int].r@));
            assert(Seq::new((i + 1) as nat, |i: int| 0int) =~= Seq::new(
                i as nat,
                |i: int| 0int,
            ).push(0));
            assert(points[i as int] == p@);
            let (lb, lbb) = (gout_log(gens.b@), gout_log(gens.b_blinding@));
            assert(lb * wits@[i as int].r@ + lbb * 0 == lb * wits@[i as int].r@)
                by (nonlinear_arith);
        }
        i = i + 1;
    }
    let ghost before = prover;
    proof {
        assert(points.take(i as int) =~= points);
        assert(rs.take(i as int) =~= rs);
        assert(r_vars@ =~= committed_vars(wits@.len()));
        lemma_gates_fit(
            params.lambda as nat,
            pubs.peers@.len(),
            params.max_peers as nat,
        );
        let w = system(prover).w->Some_0;
        assert(gates_hold(w));
        assert(good(system(prover)));
    }
    build_batch_circuit(
        &mut prover,
        &pubs.pk1,
        &pubs.h1m,
        &pubs.h2m,
        pubs.beta,
        pubs.peers.as_slice(),
        r_vars.as_slice(),
        Some(wits),
        params.lambda,
    );
    proof {
        law_prover_and_verifier_build_the_same_circuit(
            system(before),
            start_system(pubs.peers@.len(), None),
            pubs.pk1@,
            Some(wits@[0].sk@),
            peer_keys(pubs.peers@),
            input_bases(pubs@),
            committed_vars(wits@.len()),
            params.lambda as nat,
        );
        prover.lemma_well_formed();
    }
    prover
}

// ─── what a proof comes to ──────────────────────────────────────────────────

/// Why a proof fails, with the text of the error.
pub enum Failure {
    TooManyPeers,
    Internal(Seq<char>),
    Proof(Seq<char>),
}

/// What is left of a proof before any product is computed.
pub enum Outcome {
    /// The Schnorr proofs hold: nothing is left to check.
    Passed,
    /// The check of a full proof.
    Pending(CheckView),
    Failed(Failure),
}

/// The result is the error of the failure.
pub open spec fn failed<T>(
    params: ZkParams,
    pubs: InputsView,
    f: Failure,
    res: GoldenResult<T>,
) -> bool {
    match f {
        Failure::TooManyPeers => res matches Err(GoldenError::TooManyPeers { got, max }) && got
            == pubs.peers.len() && max == params.max_peers,
        Failure::Internal(text) => res matches Err(GoldenError::Internal(s)) && s@ == text,
        Failure::Proof(text) => res matches Err(GoldenError::Proof(s)) && s@ == text,
    }
}

/// The Schnorr proofs all hold.
pub open spec fn all_quick_hold(
    params: ZkParams,
    sid: Seq<u8>,
    pubs: InputsView,
    proofs: Seq<SchnorrR>,
) -> bool {
    forall|i: int|
        0 <= i < pubs.peers.len() ==> #[trigger] quick_holds(
            inputs_log(params.lambda, sid, pubs),
            pubs.peers,
            proofs,
            i,
        )
}

/// The condition that stands in the way of a full proof, for provers, who know `sk`, and
/// verifiers.
pub open spec fn full_refused(params: ZkParams, pubs: InputsView, sk: Option<int>) -> Option<
    Failure,
> {
    let n = pad_len(batch_gates(params.lambda as nat, pubs.peers.len()));
    if pubs.peers.len() > params.max_peers {
        Some(Failure::TooManyPeers)
    } else if offset_hash() is None {
        Some(Failure::Internal("hash to curve failed"@))
    } else if !inputs_usable(sk, pubs, params.lambda as nat) {
        Some(Failure::Proof("point without coordinates"@))
    } else if n > params.gens.gens_capacity {
        Some(Failure::Proof(too_large(n, params.gens.gens_capacity as nat)))
    } else {
        None
    }
}

/// What a proof comes to, before any product is computed.
pub open spec fn outcome(
    params: ZkParams,
    sid: Seq<u8>,
    pubs: InputsView,
    proof: EvrfProof,
) -> Outcome {
    match (params.mode, proof) {
        (ZkMode::InsecureQuick, EvrfProof::InsecureQuick(proofs)) => {
            if proofs@.len() != pubs.peers.len() {
                Outcome::Failed(Failure::Proof("peer count mismatch"@))
            } else if all_quick_hold(params, sid, pubs, proofs@) {
                Outcome::Passed
            } else {
                Outcome::Failed(Failure::Proof("InsecureQuick Schnorr verification failed"@))
            }
        },
        (ZkMode::Full, EvrfProof::Full(p)) => {
            match full_refused(params, pubs, None) {
                Some(f) => Outcome::Failed(f),
                None => full_outcome(params, sid, pubs, p),
            }
        },
        _ => Outcome::Failed(Failure::Proof("proof/params mode mismatch"@)),
    }
}

/// What a full proof comes to where nothing stands in its way.
#[verifier::opaque]
pub open spec fn full_outcome(
    params: ZkParams,
    sid: Seq<u8>,
    pubs: InputsView,
    p: R1CSProof,
) -> Outcome {
    let points = pad_commitments(pubs.peers);
    let n = pad_len(batch_gates(params.lambda as nat, pubs.peers.len()));
    let k = p.ipp.l_vec@.len();
    match check_of(
        full_log(params, sid, pubs, points),
        evrf_circuit(pubs, params.lambda as nat),
        points,
        p@,
    ) {
        None => Outcome::Failed(Failure::Proof("zero challenge"@)),
        Some(v) => if rounds_fit(k, n) {
            Outcome::Pending(v)
        } else {
            Outcome::Failed(Failure::Proof(length_mismatch(k, n)))
        },
    }
}

/// The proof is good: the Schnorr proofs hold, or the product of the check is the
/// identity.
pub open spec fn accepted(
    params: ZkParams,
    sid: Seq<u8>,
    pubs: InputsView,
    proof: EvrfProof,
) -> bool {
    match outcome(params, sid, pubs, proof) {
        Outcome::Passed => true,
        Outcome::Pending(v) => gout_msm(check_bases(*params.gens, v), check_scalars(v))
            == gout_identity(),
        Outcome::Failed(_) => false,
    }
}

/// The points of the proof and of the public inputs that it speaks of are in the
/// prime-order group.
#[verifier::opaque]
pub open spec fn proof_in_group(
    params: ZkParams,
    sid: Seq<u8>,
    pubs: InputsView,
    proof: EvrfProof,
) -> bool {
    match (params.mode, proof) {
        (_, EvrfProof::InsecureQuick(proofs)) => forall|i: int|
            0 <= i < pubs.peers.len() ==> #[trigger] quick_in_group(pubs.peers, proofs@, i),
        (_, EvrfProof::Full(_)) => params.gens.in_group() && (outcome(params, sid, pubs, proof) matches
            Outcome::Pending(v) ==> gouts_in_group(v.points)),
    }
}

/// The proof is good in exponents: those of the Schnorr proofs agree, or that of the
/// product of the check is zero.
#[verifier::opaque]
pub open spec fn exponents_accepted(
    params: ZkParams,
    sid: Seq<u8>,
    pubs: InputsView,
    proof: EvrfProof,
) -> bool {
    match (params.mode, proof) {
        (ZkMode::InsecureQuick, EvrfProof::InsecureQuick(proofs)) => {
            &&& proofs@.len() == pubs.peers.len()
            &&& forall|i: int|
                0 <= i < pubs.peers.len() ==> #[trigger] quick_exponents(
                    inputs_log(params.lambda, sid, pubs),
                    pubs.peers,
                    proofs@,
                    i,
                )
        },
        (ZkMode::Full, EvrfProof::Full(_)) => outcome(params, sid, pubs, proof) matches
            Outcome::Pending(v) && check_vanishes(*params.gens, v),
        _ => false,
    }
}

/// A quick proof that is accepted for two inputs, with other commitments, another session
/// or other keys, forces an equation between the two challenges of every recipient:
/// `c·log R = c'·log R'`. The inputs have equally many recipients; and where a commitment
/// is the same one in both, and not to zero, so is the challenge.
pub proof fn law_quick_proof_for_two_inputs(
    params: ZkParams,
    sid1: Seq<u8>,
    pubs1: InputsView,
    sid2: Seq<u8>,
    pubs2: InputsView,
    proofs: Vec<SchnorrR>,
)
    requires
        exponents_accepted(params, sid1, pubs1, EvrfProof::InsecureQuick(proofs)),
        exponents_accepted(params, sid2, pubs2, EvrfProof::InsecureQuick(proofs)),
    ensures
        pubs1.peers.len() == proofs@.len(),
        pubs2.peers.len() == proofs@.len(),
        forall|i: int|
            0 <= i < proofs@.len() ==> {
                let c1 = quick_challenge(
                    inputs_log(params.lambda, sid1, pubs1),
                    pubs1.peers,
                    proofs@,
                    i as nat,
                );
                let c2 = quick_challenge(
                    inputs_log(params.lambda, sid2, pubs2),
                    pubs2.peers,
                    proofs@,
                    i as nat,
                );
                let r1 = gout_log((#[trigger] pubs1.peers[i]).r_commit@);
                let r2 = gout_log(pubs2.peers[i].r_commit@);
                &&& cong(c1 * r1, c2 * r2, fp_order())
                &&& is_prime(fp_order()) && r1 == r2 && r1 % fp_order() != 0 ==> c1 == c2
            },
{
    reveal(exponents_accepted);
    let m = fp_order();
    lemma_fp_order();
    let (l1, l2) = (
        inputs_log(params.lambda, sid1, pubs1),
        inputs_log(params.lambda, sid2, pubs2),
    );
    assert forall|i: int| 0 <= i < proofs@.len() implies {
        let c1 = quick_challenge(l1, pubs1.peers, proofs@, i as nat);
        let c2 = quick_challenge(l2, pubs2.peers, proofs@, i as nat);
        let r1 = gout_log((#[trigger] pubs1.peers[i]).r_commit@);
        let r2 = gout_log(pubs2.peers[i].r_commit@);
        &&& cong(c1 * r1, c2 * r2, m)
        &&& is_prime(m) && r1 == r2 && r1 % m != 0 ==> c1 == c2
    } by {
        assert(quick_exponents(l1, pubs1.peers, proofs@, i));
        assert(quick_exponents(l2, pubs2.peers, proofs@, i));
        let c1 = quick_challenge(l1, pubs1.peers, proofs@, i as nat);
        let c2 = quick_challenge(l2, pubs2.peers, proofs@, i as nat);
        let r1 = gout_log(pubs1.peers[i].r_commit@);
        let r2 = gout_log(pubs2.peers[i].r_commit@);
        let k = gout_log(proofs@[i].commitment@);
        lemma_cong_sub(k + c1 * r1, k + c2 * r2, k, k, m);
        if is_prime(m) && r1 == r2 && r1 % m != 0 {
            lemma_cong_diff(c1 * r1, c2 * r1, m);
            assert(c1 * r1 - c2 * r1 == (c1 - c2) * r1) by (nonlinear_arith);
            assert(((c1 - c2) * r1) % m == 0);
            lemma_cong_diff(c1, c2, m);
            lemma_cong_small(c1, c2, m);
        }
    }
}

// ─── proving ────────────────────────────────────────────────────────────────

/// The inputs of an honest prover: the witnesses are those of the pads that the
/// commitments are to, and the parameters are large enough for them.
pub open spec fn honest_inputs(
    params: ZkParams,
    pubs: InputsView,
    wits: Seq<EvrfWitness>,
) -> bool {
    &&& params.mode is Full ==> params.gens.in_group() && gout_is_pow(params.gens.b@, 1)
    &&& wits.len() == pubs.peers.len()
    &&& forall|i: int|
        0 <= i < wits.len() ==> gout_is_pow((#[trigger] pubs.peers[i]).r_commit@, wits[i].r@)
    &&& params.mode is Full ==> honest_batch(
        start_system(wits.len(), Some(pads(wits))).w->Some_0,
        pubs.pk1,
        pubs.peers,
        input_bases(pubs),
        committed_vars(wits.len()),
        wits,
        params.lambda as nat,
    )
}

/// `p` is the full proof for the witnesses, with the given blinding factors.
#[verifier::opaque]
pub open spec fn full_made(
    params: ZkParams,
    sid: Seq<u8>,
    pubs: InputsView,
    wits: Seq<EvrfWitness>,
    bl: BlindingsView,
    p: R1CSProof,
) -> bool {
    proof_made(
        *params.gens,
        full_log(params, sid, pubs, commitments_made(*params.gens, wits)),
        evrf_circuit(pubs, params.lambda as nat),
        evrf_values(pubs, wits, params.lambda as nat),
        Seq::new(wits.len(), |i: int| 0int),
        bl,
        p,
    )
}

/// With the given blinding factors a challenge is zero, so there is no proof.
#[verifier::opaque]
pub open spec fn full_stuck(
    params: ZkParams,
    sid: Seq<u8>,
    pubs: InputsView,
    wits: Seq<EvrfWitness>,
    bl: BlindingsView,
) -> bool {
    honest_proof(
        *params.gens,
        full_log(params, sid, pubs, commitments_made(*params.gens, wits)),
        evrf_circuit(pubs, params.lambda as nat),
        evrf_values(pubs, wits, params.lambda as nat),
        Seq::new(wits.len(), |i: int| 0int),
        bl,
    ) is None
}

/// The number of blinding factors for each of the two blinding vectors.
pub open spec fn blinding_len(params: ZkParams, pubs: InputsView) -> nat {
    pad_len(batch_gates(params.lambda as nat, pubs.peers.len()))
}

/// Commitments to the pads with base `g_out` and zero blinding are the pad
/// commitments.
proof fn lemma_commitments_are_pads(gens: BpGens, peers: Seq<EvrfPeerInputs>, wits: Seq<EvrfWitness>)
    requires
        gout_is_pow(gens.b@, 1),
        wits.len() == peers.len(),
        forall|i: int|
            0 <= i < wits.len() ==> gout_is_pow((#[trigger] peers[i]).r_commit@, wits[i].r@),
        forall|i: int|
            0 <= i < wits.len() ==> point_is(
                #[trigger] commitments_made(gens, wits)[i],
                gout_log(gens.b@) * wits[i].r@,
            ),
    ensures
        commitments_made(gens, wits) == pad_commitments(peers),
{
    let (a, b) = (commitments_made(gens, wits), pad_commitments(peers));
    let m = fp_order();
    lemma_fp_order();
    lemma_gout_log(gens.b@, 1);
    assert forall|i: int| 0 <= i < wits.len() implies #[trigger] a[i] == b[i] by {
        let r = wits[i].r@;
        lemma_fp_range(wits[i].r);
        assert(gout_is_pow(peers[i].r_commit@, r));
        lemma_gout_log(peers[i].r_commit@, r);
        assert(point_is(a[i], gout_log(gens.b@) * r));
        lemma_gout_eq(a[i], b[i]);
        assert(1 * r == r);
        lemma_cong_small(gout_log(a[i]), r, m);
    }
    assert(a =~= b);
}

/// The Schnorr proofs for all recipients, with random nonces.
fn prove_quick(
    params: &ZkParams,
    sid: &SessionId,
    pubs: &BatchPublicInputs,
    wits: &[EvrfWitness],
    rng: &mut StdRng,
) -> (res: GoldenResult<EvrfProof>)
    requires
        params.mode is InsecureQuick,
        wits@.len() == pubs.peers@.len(),
    ensures
        quick_result(*params, sid@, pubs@, wits@, res),
        honest_inputs(*params, pubs@, wits@) ==> (res matches Ok(made) ==> proof_in_group(
            *params,
            sid@,
            pubs@,
            made,
        ) && exponents_accepted(*params, sid@, pubs@, made)),
{
    let t = batch_transcript(params, sid, pubs);
    let ghost log = transcript_log(t);
    let nonces = random_nonces(wits.len(), rng);
    let proofs = quick_proofs(t, pubs.peers.as_slice(), wits, nonces.as_slice());
    proof {
        reveal(proof_in_group);
        reveal(exponents_accepted);
        if honest_inputs(*params, pubs@, wits@) {
            law_honest_quick_proofs_hold(
                log,
                pubs.peers@,
                wits@,
                crate::field::fps(nonces@),
                proofs@,
            );
            assert forall|i: int| 0 <= i < pubs.peers@.len() implies #[trigger] quick_exponents(
                log,
                pubs.peers@,
                proofs@,
                i,
            ) by {
                assert(quick_in_group(pubs.peers@, proofs@, i));
            }
        }
        assert(quick_made(
            inputs_log(params.lambda, sid@, pubs@),
            pubs.peers@,
            wits@,
            crate::field::fps(nonces@),
            proofs@,
        ));
    }
    let ghost made = proofs@;
    let res: GoldenResult<EvrfProof> = Ok(EvrfProof::InsecureQuick(proofs));
    assert((res->Ok_0)->InsecureQuick_0@ == made);
    res
}

/// What there is to say of Schnorr proofs.
pub open spec fn quick_result(
    params: ZkParams,
    sid: Seq<u8>,
    pubs: InputsView,
    wits: Seq<EvrfWitness>,
    res: GoldenResult<EvrfProof>,
) -> bool {
    res matches Ok(EvrfProof::InsecureQuick(proofs)) && exists|ks: Seq<int>| #[trigger]
        quick_made(inputs_log(params.lambda, sid, pubs), pubs.peers, wits, ks, proofs@)
}

/// What there is to say of a full proof and of a failure to make one.
pub open spec fn full_result(
    params: ZkParams,
    sid: Seq<u8>,
    pubs: InputsView,
    wits: Seq<EvrfWitness>,
    res: GoldenResult<EvrfProof>,
) -> bool {
    let n = blinding_len(params, pubs);
    match full_refused(params, pubs, prover_secret(wits)) {
        Some(f) => failed(params, pubs, f, res),
        None => match res {
            Ok(made) => made matches EvrfProof::Full(p) && exists|bl: BlindingsView|
                blindings_fit(bl, n) && #[trigger] full_made(params, sid, pubs, wits, bl, p),
            Err(_) => failed(params, pubs, Failure::Proof("zero challenge"@), res)
                && exists|bl: BlindingsView|
                blindings_fit(bl, n) && #[trigger] full_stuck(params, sid, pubs, wits, bl),
        },
    }
}

/// The full proof for all recipients.
fn prove_full(
    params: &ZkParams,
    sid: &SessionId,
    pubs: &BatchPublicInputs,
    wits: &[EvrfWitness],
    rng: &mut StdRng,
) -> (res: GoldenResult<EvrfProof>)
    requires
        params_ok(*params),
        params.mode is Full,
        wits@.len() == pubs.peers@.len(),
        pubs.peers@.len() > 0,
    ensures
        full_result(*params, sid@, pubs@, wits@, res),
        honest_inputs(*params, pubs@, wits@) ==> (res matches Ok(made) ==> proof_in_group(
            *params,
            sid@,
            pubs@,
            made,
        ) && exponents_accepted(*params, sid@, pubs@, made)),
{
    if pubs.peers.len() > params.max_peers {
        return Err(GoldenError::TooManyPeers { got: pubs.peers.len(), max: params.max_peers });
    }
    let offset = match try_offset_point() {
        Some(p) => p,
        None => {
            return Err(GoldenError::Internal(String::from_str("hash to curve failed")));
        },
    };
    proof {
        lemma_gates_fit(params.lambda as nat, pubs.peers@.len(), params.max_peers as nat);
        let each = peer_gates(params.lambda as nat);
        assert(pubs.peers@.len() * each >= 0) by (nonlinear_arith);
    }
    if !peers_are_usable(
        Some(&wits[0].sk),
        pubs.peers.as_slice(),
        &pubs.h1m,
        &pubs.h2m,
        &pubs.beta,
        &offset,
        params.lambda,
    ) {
        return Err(GoldenError::Proof(String::from_str("point without coordinates")));
    }
    let prover = full_prover(params, sid, pubs, wits);
    proof {
        prover.lemma_well_formed();
    }
    let ghost (cx, c, w) = (prover.context(), prover.circuit(), prover.values()->Some_0);
    let ghost n = blinding_len(*params, pubs@);
    match prover.prove(rng) {
        Ok(p) => {
            proof {
                let bl = choose|bl: BlindingsView|
                    blindings_fit(bl, n) && #[trigger] proof_made(
                        cx.gens,
                        cx.log,
                        c,
                        w,
                        cx.blindings,
                        bl,
                        p,
                    );
                assert(full_made(*params, sid@, pubs@, wits@, bl, p)) by {
                    reveal(full_made);
                }
                if honest_inputs(*params, pubs@, wits@) {
                    lemma_full_accepted(*params, sid@, pubs@, wits@, bl, p);
                }
            }
            let ghost made = p;
            let res: GoldenResult<EvrfProof> = Ok(EvrfProof::Full(p));
            assert((res->Ok_0)->Full_0 == made);
            res
        },
        Err(e) => {
            proof {
                if full_refused(*params, pubs@, prover_secret(wits@)) is None {
                    let bl = choose|bl: BlindingsView|
                        blindings_fit(bl, n) && #[trigger] honest_proof(
                            cx.gens,
                            cx.log,
                            c,
                            w,
                            cx.blindings,
                            bl,
                        ) is None;
                    assert(full_stuck(*params, sid@, pubs@, wits@, bl)) by {
                        reveal(full_stuck);
                    }
                }
            }
            Err(GoldenError::Proof(e))
        },
    }
}

/// Makes the proof for all recipients. The witnesses come in the order of the
/// recipients. What it makes of honest inputs, [`verify_evrf_batch`] accepts.
pub fn prove_evrf_batch(
    params: &ZkParams,
    sid: &SessionId,
    pubs: &BatchPublicInputs,
    wits: &[EvrfWitness],
    rng: &mut StdRng,
) -> (res: GoldenResult<EvrfProof>)
    requires
        params_ok(*params),
        params.mode is Full && wits@.len() == pubs.peers@.len() ==> pubs.peers@.len() > 0,
    ensures
        wits@.len() != pubs.peers@.len() ==> failed(
            *params,
            pubs@,
            Failure::Internal("peers/witnesses length mismatch"@),
            res,
        ),
        wits@.len() == pubs.peers@.len() && params.mode is InsecureQuick ==> quick_result(
            *params,
            sid@,
            pubs@,
            wits@,
            res,
        ),
        wits@.len() == pubs.peers@.len() && params.mode is Full ==> full_result(
            *params,
            sid@,
            pubs@,
            wits@,
            res,
        ),
        honest_inputs(*params, pubs@, wits@) ==> (res matches Ok(made) ==> proof_in_group(
            *params,
            sid@,
            pubs@,
            made,
        ) && exponents_accepted(*params, sid@, pubs@, made)),
{
    if wits.len() != pubs.peers.len() {
        return Err(GoldenError::Internal(String::from_str("peers/witnesses length mismatch")));
    }
    match params.mode {
        ZkMode::InsecureQuick => prove_quick(params, sid, pubs, wits, rng),
        ZkMode::Full => prove_full(params, sid, pubs, wits, rng),
    }
}

/// With keys and points of the prime-order subgroup the circuit can be computed.
proof fn lemma_honest_usable(pubs: InputsView, wits: Seq<EvrfWitness>, lambda: nat)
    requires
        honest_batch(
            start_system(wits.len(), Some(pads(wits))).w->Some_0,
            pubs.pk1,
            pubs.peers,
            input_bases(pubs),
            committed_vars(wits.len()),
            wits,
            lambda,
        ),
    ensures
        inputs_usable(None, pubs, lambda),
{
    let keys = peer_keys(pubs.peers);
    assert forall|i: int| 0 <= i < keys.len() implies peer_usable(
        digits(None, lambda),
        #[trigger] keys[i],
        input_bases(pubs),
        lambda,
    ) by {
        assert(keys[i] == pubs.peers[i].pk2@);
    }
}

/// A full proof from honest inputs passes in exponents.
proof fn lemma_full_accepted(
    params: ZkParams,
    sid: Seq<u8>,
    pubs: InputsView,
    wits: Seq<EvrfWitness>,
    bl: BlindingsView,
    p: R1CSProof,
)
    requires
        params.mode is Full,
        params.gens.well_formed(),
        honest_inputs(params, pubs, wits),
        full_refused(params, pubs, prover_secret(wits)) is None,
        blindings_fit(bl, blinding_len(params, pubs)),
        full_made(params, sid, pubs, wits, bl, p),
        evrf_circuit(pubs, params.lambda as nat).n_mul == batch_gates(
            params.lambda as nat,
            pubs.peers.len(),
        ),
        evrf_circuit(pubs, params.lambda as nat).n_committed == pubs.peers.len(),
        circuit_ok(evrf_circuit(pubs, params.lambda as nat)),
        satisfied(
            evrf_circuit(pubs, params.lambda as nat),
            evrf_values(pubs, wits, params.lambda as nat),
        ),
        evrf_values(pubs, wits, params.lambda as nat).v == pads(wits),
        forall|i: int|
            0 <= i < wits.len() ==> point_is(
                #[trigger] commitments_made(*params.gens, wits)[i],
                gout_log(params.gens.b@) * wits[i].r@,
            ),
    ensures
        proof_in_group(params, sid, pubs, EvrfProof::Full(p)),
        exponents_accepted(params, sid, pubs, EvrfProof::Full(p)),
{
    reveal(full_made);
    reveal(full_outcome);
    reveal(proof_in_group);
    reveal(exponents_accepted);
    let gens = *params.gens;
    let points = pad_commitments(pubs.peers);
    let gammas = Seq::new(wits.len(), |i: int| 0int);
    let w = evrf_values(pubs, wits, params.lambda as nat);
    lemma_honest_usable(pubs, wits, params.lambda as nat);
    lemma_commitments_are_pads(gens, pubs.peers, wits);
    assert forall|j: int| 0 <= j < wits.len() implies point_is(
        #[trigger] points[j],
        gout_log(gens.b@) * w.v[j] + gout_log(gens.b_blinding@) * gammas[j],
    ) by {
        let lbb = gout_log(gens.b_blinding@);
        assert(lbb * 0 == 0) by (nonlinear_arith);
        assert(point_is(commitments_made(gens, wits)[j], gout_log(gens.b@) * wits[j].r@));
    }
    law_honest_proof_verifies(
        gens,
        full_log(params, sid, pubs, points),
        evrf_circuit(pubs, params.lambda as nat),
        w,
        gammas,
        bl,
        p,
        points,
    );
}

fn random_nonces(n: usize, rng: &mut StdRng) -> (r: Vec<Fp>)
    ensures
        r@.len() == n,
{
    let mut out: Vec<Fp> = Vec::with_capacity(n);
    while out.len() < n
        invariant
            out@.len() <= n,
        decreases n - out@.len(),
    {
        out.push(Fp::rand(rng));
    }
    out
}

// ─── verifying ──────────────────────────────────────────────────────────────

/// Of a full proof with as many rounds as the circuit for `peers` recipients asks for,
/// no round lacks its second point.
pub open spec fn rounds_complete(params: ZkParams, peers: nat, made: EvrfProof) -> bool {
    made matches EvrfProof::Full(p) ==> (rounds_fit(
        p.ipp.l_vec@.len(),
        pad_len(batch_gates(params.lambda as nat, peers)),
    ) ==> p.ipp.r_vec@.len() >= p.ipp.l_vec@.len())
}

/// A verifier that knows the commitments and has built the circuit.
fn full_verifier<'g>(
    params: &'g ZkParams,
    sid: &SessionId,
    pubs: &BatchPublicInputs,
) -> (r: Verifier<'g>)
    requires
        params_ok(*params),
        params.mode is Full,
        pubs.peers@.len() <= params.max_peers,
        inputs_usable(None, pubs@, params.lambda as nat),
        offset_hash() is Some,
    ensures
        r.well_formed(),
        r.context().gens == *params.gens,
        r.context().log == full_log(*params, sid@, pubs@, pad_commitments(pubs.peers@)),
        r.context().commitments == pad_commitments(pubs.peers@),
        r.circuit() == evrf_circuit(pubs@, params.lambda as nat),
        r.circuit().n_mul == batch_gates(params.lambda as nat, pubs.peers@.len()),
        r.circuit().n_committed == pubs.peers@.len(),
        circuit_binds(pubs@, params.lambda as nat),
{
    proof {
        reveal(evrf_circuit);
        reveal(full_log);
        reveal(circuit_binds);
    }
    let t = batch_transcript(params, sid, pubs);
    let gens: &BpGens = &params.gens;
    let ghost points = pad_commitments(pubs.peers@);
    let mut verifier = Verifier::new(gens, t);
    let ghost cx0 = verifier.context();
    let mut r_vars: Vec<Variable> = Vec::with_capacity(pubs.peers.len());
    let mut i: usize = 0;
    proof {
        assert(points.take(0) =~= Seq::<GoutPoint>::empty());
    }
    while i < pubs.peers.len()
        invariant
            i <= pubs.peers@.len(),
            points == pad_commitments(pubs.peers@),
            cx0 == start_context(*gens, inputs_log(params.lambda, sid@, pubs@)),
            verifier.well_formed(),
            verifier.context().gens == *gens,
            verifier.context().log == committed_log(cx0.log, points.take(i as int)),
            verifier.context().commitments == points.take(i as int),
            system(verifier) == start_system(i as nat, None),
            r_vars@.len() == i,
            forall|k: int|
                0 <= k < i ==> #[trigger] r_vars@[k] == Variable::Committed(k as usize),
        decreases pubs.peers@.len() - i,
    {
        let v = verifier.commit(pubs.peers[i].r_commit);
        r_vars.push(v);
        proof {
            assert(points.take(i + 1).drop_last() =~= points.take(i as int));
            assert(points.take(i + 1) =~= points.take(i as int).push(points[i as int]));
        }
        i = i + 1;
    }
    proof {
        assert(points.take(i as int) =~= points);
        assert(r_vars@ =~= committed_vars(pubs.peers@.len()));
        lemma_gates_fit(params.lambda as nat, pubs.peers@.len(), params.max_peers as nat);
    }
    build_batch_circuit(
        &mut verifier,
        &pubs.pk1,
        &pubs.h1m,
        &pubs.h2m,
        pubs.beta,
        pubs.peers.as_slice(),
        r_vars.as_slice(),
        None,
        params.lambda,
    );
    verifier
}

/// What a result of [`collect_evrf_check`] says of the proof.
pub open spec fn collected(
    params: ZkParams,
    sid: Seq<u8>,
    pubs: InputsView,
    made: EvrfProof,
    res: GoldenResult<Option<VerificationCheck>>,
) -> bool {
    match outcome(params, sid, pubs, made) {
        Outcome::Passed => res matches Ok(None),
        Outcome::Pending(v) => res matches Ok(Some(check)) && check@ == v && check_fits(
            *params.gens,
            v,
        ) && v.digest.len() == 32,
        Outcome::Failed(f) => failed(params, pubs, f, res),
    }
}

/// The check of a full proof.
fn collect_full(
    params: &ZkParams,
    sid: &SessionId,
    pubs: &BatchPublicInputs,
    p: &R1CSProof,
) -> (res: GoldenResult<Option<VerificationCheck>>)
    requires
        params_ok(*params),
        params.mode is Full,
        rounds_complete(*params, pubs.peers@.len(), EvrfProof::Full(*p)),
    ensures
        collected(*params, sid@, pubs@, EvrfProof::Full(*p), res),
        res is Ok ==> circuit_binds(pubs@, params.lambda as nat),
{
    if pubs.peers.len() > params.max_peers {
        return Err(GoldenError::TooManyPeers { got: pubs.peers.len(), max: params.max_peers });
    }
    let offset = match try_offset_point() {
        Some(p) => p,
        None => {
            return Err(GoldenError::Internal(String::from_str("hash to curve failed")));
        },
    };
    proof {
        lemma_gates_fit(params.lambda as nat, pubs.peers@.len(), params.max_peers as nat);
        let each = peer_gates(params.lambda as nat);
        assert(pubs.peers@.len() * each >= 0) by (nonlinear_arith);
    }
    if !peers_are_usable(
        None,
        pubs.peers.as_slice(),
        &pubs.h1m,
        &pubs.h2m,
        &pubs.beta,
        &offset,
        params.lambda,
    ) {
        return Err(GoldenError::Proof(String::from_str("point without coordinates")));
    }
    let verifier = full_verifier(params, sid, pubs);
    proof {
        reveal(full_outcome);
    }
    match verifier.collect_check(p) {
        Ok(check) => Ok(Some(check)),
        Err(e) => Err(GoldenError::Proof(e)),
    }
}

/// What is left to check of a proof, so that several proofs can be checked at once by
/// [`verify_evrf_checks`]. Schnorr proofs are verified here, and nothing is left of
/// them.
pub fn collect_evrf_check(
    params: &ZkParams,
    sid: &SessionId,
    pubs: &BatchPublicInputs,
    proof: &EvrfProof,
) -> (res: GoldenResult<Option<VerificationCheck>>)
    requires
        params_ok(*params),
        params.mode is Full ==> rounds_complete(*params, pubs.peers@.len(), *proof),
    ensures
        collected(*params, sid@, pubs@, *proof, res),
        params.mode is InsecureQuick && proof_in_group(*params, sid@, pubs@, *proof) ==> (res is Ok
            <==> exponents_accepted(*params, sid@, pubs@, *proof)),
        params.mode is Full && res is Ok ==> circuit_binds(pubs@, params.lambda as nat),
{
    proof {
        reveal(exponents_accepted);
    }
    match (params.mode, proof) {
        (ZkMode::InsecureQuick, EvrfProof::InsecureQuick(proofs)) => {
            proof {
                reveal(proof_in_group);
            }
            if proofs.len() != pubs.peers.len() {
                return Err(GoldenError::Proof(String::from_str("peer count mismatch")));
            }
            let t = batch_transcript(params, sid, pubs);
            if quick_verify(t, pubs.peers.as_slice(), proofs.as_slice()) {
                Ok(None)
            } else {
                Err(
                    GoldenError::Proof(
                        String::from_str("InsecureQuick Schnorr verification failed"),
                    ),
                )
            }
        },
        (ZkMode::Full, EvrfProof::Full(p)) => collect_full(params, sid, pubs, p),
        _ => Err(GoldenError::Proof(String::from_str("proof/params mode mismatch"))),
    }
}

/// With parameters for full proofs, a proof in the prime-order group passes in
/// exponents where its check vanishes.
pub proof fn lemma_full_group(
    params: ZkParams,
    sid: Seq<u8>,
    pubs: InputsView,
    made: EvrfProof,
)
    requires
        params.mode is Full,
    ensures
        outcome(params, sid, pubs, made) !is Passed,
        exponents_accepted(params, sid, pubs, made) == (outcome(params, sid, pubs, made) matches
            Outcome::Pending(v) && check_vanishes(*params.gens, v)),
        proof_in_group(params, sid, pubs, made) ==> (outcome(params, sid, pubs, made) matches
            Outcome::Pending(v) ==> params.gens.in_group() && gouts_in_group(v.points)),
{
    reveal(full_outcome);
    reveal(exponents_accepted);
    reveal(proof_in_group);
}

/// Verifies the proof for all recipients. A full proof is one of a circuit that binds
/// the committed pads.
pub fn verify_evrf_batch(
    params: &ZkParams,
    sid: &SessionId,
    pubs: &BatchPublicInputs,
    proof: &EvrfProof,
) -> (res: GoldenResult<()>)
    requires
        params_ok(*params),
        params.mode is Full ==> rounds_complete(*params, pubs.peers@.len(), *proof),
    ensures
        res is Ok <==> accepted(*params, sid@, pubs@, *proof),
        outcome(*params, sid@, pubs@, *proof) matches Outcome::Failed(f) ==> failed(
            *params,
            pubs@,
            f,
            res,
        ),
        outcome(*params, sid@, pubs@, *proof) is Pending && res is Err ==> failed(
            *params,
            pubs@,
            Failure::Proof("R1CS verification failed"@),
            res,
        ),
        proof_in_group(*params, sid@, pubs@, *proof) ==> (res is Ok <==> exponents_accepted(
            *params,
            sid@,
            pubs@,
            *proof,
        )),
        params.mode is Full && res is Ok ==> circuit_binds(pubs@, params.lambda as nat),
{
    let gens: &BpGens = &params.gens;
    proof {
        if params.mode is Full {
            lemma_full_group(*params, sid@, pubs@, *proof);
        }
    }
    match collect_evrf_check(params, sid, pubs, proof) {
        Ok(Some(check)) => match check.verify(gens) {
            Ok(_) => Ok(()),
            Err(e) => Err(GoldenError::Proof(e)),
        },
        Ok(None) => Ok(()),
        Err(e) => Err(e),
    }
}

/// Verifies several checks with one product. Where that fails, it does not say which
/// proof is bad.
pub fn verify_evrf_checks(params: &ZkParams, checks: &[VerificationCheck]) -> (res: GoldenResult<()>)
    requires
        params.gens.well_formed(),
        forall|i: int| 0 <= i < checks@.len() ==> check_fits(*params.gens, (#[trigger] checks@[i])@),
        forall|i: int| 0 <= i < checks@.len() ==> (#[trigger] checks@[i]).digest@.len() <= u32::MAX,
    ensures
        ({
            let vs = check_views(checks@);
            let v = combined_check(vs, batch_weights(vs));
            &&& checks@.len() == 0 ==> res is Ok
            &&& checks@.len() > 0 ==> (res is Ok <==> gout_msm(
                check_bases(*params.gens, v),
                check_scalars(v),
            ) == gout_identity())
            &&& res matches Err(e) ==> e matches GoldenError::Proof(s) && s@
                == "R1CS verification failed"@
            &&& params.gens.in_group() && gouts_in_group(v.points) ==> (res is Ok
                <==> check_vanishes(*params.gens, v))
        }),
{
    let gens: &BpGens = &params.gens;
    match verify_batch(gens, checks) {
        Ok(_) => Ok(()),
        Err(e) => Err(GoldenError::Proof(e)),
    }
}

// ─── one recipient ──────────────────────────────────────────────────────────

/// Public inputs with one recipient.
pub open spec fn single_inputs(pubs: EvrfPublicInputs) -> InputsView {
    InputsView {
        pk1: pubs.pk1@,
        h1m: pubs.h1m@,
        h2m: pubs.h2m@,
        beta: pubs.beta@,
        peers: seq![EvrfPeerInputs { pk2: pubs.pk2, r_commit: pubs.r_commit }],
    }
}

fn one_recipient(pubs: &EvrfPublicInputs) -> (r: BatchPublicInputs)
    ensures
        r@ == single_inputs(*pubs),
{
    let mut peers: Vec<EvrfPeerInputs> = Vec::new();
    peers.push(EvrfPeerInputs { pk2: pubs.pk2, r_commit: pubs.r_commit });
    let r = BatchPublicInputs {
        pk1: pubs.pk1,
        h1m: pubs.h1m,
        h2m: pubs.h2m,
        beta: pubs.beta,
        peers,
    };
    assert(r@ =~= single_inputs(*pubs));
    r
}

/// Makes the proof for one recipient. What it makes of honest inputs,
/// [`verify_evrf`] accepts.
pub fn prove_evrf(
    params: &ZkParams,
    sid: &SessionId,
    pubs: &EvrfPublicInputs,
    wit: &EvrfWitness,
    rng: &mut StdRng,
) -> (res: GoldenResult<EvrfProof>)
    requires
        params_ok(*params),
    ensures
        params.mode is InsecureQuick ==> quick_result(
            *params,
            sid@,
            single_inputs(*pubs),
            seq![*wit],
            res,
        ),
        params.mode is Full ==> full_result(
            *params,
            sid@,
            single_inputs(*pubs),
            seq![*wit],
            res,
        ),
        honest_inputs(*params, single_inputs(*pubs), seq![*wit]) ==> (res matches Ok(made)
            ==> proof_in_group(*params, sid@, single_inputs(*pubs), made) && exponents_accepted(
            *params,
            sid@,
            single_inputs(*pubs),
            made,
        )),
{
    let batch = one_recipient(pubs);
    let wits: [EvrfWitness; 1] = [
        EvrfWitness {
            sk: wit.sk,
            s: wit.s,
            k: wit.k,
            t1: wit.t1,
            t2: wit.t2,
            r1: wit.r1,
            r2: wit.r2,
            r: wit.r,
        },
    ];
    assert(wits@ =~= seq![*wit]);
    prove_evrf_batch(params, sid, &batch, &wits, rng)
}

/// Verifies the proof for one recipient.
pub fn verify_evrf(
    params: &ZkParams,
    sid: &SessionId,
    pubs: &EvrfPublicInputs,
    proof: &EvrfProof,
) -> (res: GoldenResult<()>)
    requires
        params_ok(*params),
        params.mode is Full ==> rounds_complete(*params, 1, *proof),
    ensures
        res is Ok <==> accepted(*params, sid@, single_inputs(*pubs), *proof),
        outcome(*params, sid@, single_inputs(*pubs), *proof) matches Outcome::Failed(f) ==> failed(
            *params,
            single_inputs(*pubs),
            f,
            res,
        ),
        outcome(*params, sid@, single_inputs(*pubs), *proof) is Pending && res is Err ==> failed(
            *params,
            single_inputs(*pubs),
            Failure::Proof("R1CS verification failed"@),
            res,
        ),
        proof_in_group(*params, sid@, single_inputs(*pubs), *proof) ==> (res is Ok
            <==> exponents_accepted(*params, sid@, single_inputs(*pubs), *proof)),
        params.mode is Full && res is Ok ==> circuit_binds(
            single_inputs(*pubs),
            params.lambda as nat,
        ),
{
    let batch = one_recipient(pubs);
    verify_evrf_batch(params, sid, &batch, proof)
}

} // verus!
