//! When a proof of pads is accepted.
use crate::curves::{
    gin_in_group, gin_is_pow, gin_on_curve, gout_identity, gout_is_pow, gout_msm, gout_pow,
    gout_scale, gout_sum, gouts,
};
use crate::errors::GoldenResult;
use crate::zk::bp_protocol::{check_of, lemma_pad_len, pad_len};
use crate::zk::challenge_laws::{drawn, input_events, law_quick_challenge, quick_events};
use crate::zk::evrf_proof::{
    accepted, at_least_one, batch_gates, committed_vars, evrf_circuit, exponents_accepted, full_log,
    full_refused, honest_inputs, input_bases, inputs_log, inputs_usable, pad_commitments, pads,
    params_ok, proof_in_group, single_inputs, start_system, BatchPublicInputs, EvrfProof,
    InputsView, SchnorrR, ZkParams,
};
use crate::zk::bp_r1cs::{R1CSProof, VerificationCheck};
use crate::zk::gadgets::offset_hash;
use crate::zk::ipa::{is_two_power, rounds_fit};
use crate::zk::evrf_circuit::{digits, gates_estimate, honest_peer, peer_keys, peer_usable};
use crate::evrf::{pad_made, EvrfPublicInputs, EvrfWitness, PadOutput};
use crate::zk::r1cs::wire;
use vstd::arithmetic::power2::pow2;
use vstd::prelude::*;
use vstd::string::StringSliceAdditionalSpecFns;

verus! {

/// Schnorr proofs are accepted exactly where there is one for every recipient and each
/// satisfies its equation `g^s = K · R^c`, with the challenge drawn for it.
pub proof fn law_quick_proofs_are_accepted(
    params: ZkParams,
    sid: Seq<u8>,
    pubs: InputsView,
    proofs: Vec<SchnorrR>,
)
    requires
        params.mode is InsecureQuick,
    ensures
        accepted(params, sid, pubs, EvrfProof::InsecureQuick(proofs)) <==> {
            &&& proofs@.len() == pubs.peers.len()
            &&& forall|i: int|
                0 <= i < pubs.peers.len() ==> gout_pow((#[trigger] proofs@[i]).response@)
                    == gout_sum(
                    proofs@[i].commitment@,
                    gout_scale(
                        pubs.peers[i].r_commit@,
                        drawn(
                            quick_events(
                                input_events(params.lambda, sid, pubs),
                                pubs.peers,
                                proofs@,
                                (3 * i + 2) as nat,
                            ),
                            "c".spec_bytes(),
                        ),
                    ),
                )
        },
{
    let log = inputs_log(params.lambda, sid, pubs);
    assert forall|i: int| 0 <= i < pubs.peers.len() implies #[trigger]
        crate::zk::evrf_proof::quick_holds(log, pubs.peers, proofs@, i) == (gout_pow(
        proofs@[i].response@,
    ) == gout_sum(
        proofs@[i].commitment@,
        gout_scale(
            pubs.peers[i].r_commit@,
            drawn(
                quick_events(
                    input_events(params.lambda, sid, pubs),
                    pubs.peers,
                    proofs@,
                    (3 * i + 2) as nat,
                ),
                "c".spec_bytes(),
            ),
        ),
    )) by {
        law_quick_challenge(params.lambda, sid, pubs, proofs@, i as nat);
    }
    if accepted(params, sid, pubs, EvrfProof::InsecureQuick(proofs)) {
        assert forall|i: int| 0 <= i < pubs.peers.len() implies gout_pow(
            (#[trigger] proofs@[i]).response@,
        ) == gout_sum(
            proofs@[i].commitment@,
            gout_scale(
                pubs.peers[i].r_commit@,
                drawn(
                    quick_events(
                        input_events(params.lambda, sid, pubs),
                        pubs.peers,
                        proofs@,
                        (3 * i + 2) as nat,
                    ),
                    "c".spec_bytes(),
                ),
            ),
        ) by {
            assert(crate::zk::evrf_proof::quick_holds(log, pubs.peers, proofs@, i));
        }
    }
}

/// A full proof for no more recipients than the parameters allow is accepted exactly where it
/// has as many rounds as its circuit asks for, its check can be made up, and the product of
/// the check, over all generators and all points of the proof, is the neutral element.
pub proof fn law_full_proofs_are_accepted(
    params: ZkParams,
    sid: Seq<u8>,
    pubs: InputsView,
    p: R1CSProof,
)
    requires
        params.mode is Full,
        pubs.peers.len() <= params.max_peers,
        offset_hash() is Some,
        inputs_usable(None, pubs, params.lambda as nat),
        pad_len(batch_gates(params.lambda as nat, pubs.peers.len())) <= params.gens.gens_capacity,
    ensures
        accepted(params, sid, pubs, EvrfProof::Full(p)) <==> {
            let points = Seq::new(pubs.peers.len(), |i: int| pubs.peers[i].r_commit@);
            &&& rounds_fit(
                p.ipp.l_vec@.len(),
                pad_len(batch_gates(params.lambda as nat, pubs.peers.len())),
            )
            &&& check_of(
                full_log(params, sid, pubs, points),
                evrf_circuit(pubs, params.lambda as nat),
                points,
                p@,
            ) matches Some(v) && gout_msm(
                seq![params.gens.b@, params.gens.b_blinding@] + gouts(params.gens.g_vec@).take(
                    v.g.len() as int,
                ) + gouts(params.gens.h_vec@).take(v.h.len() as int) + v.points,
                seq![v.b, v.b_blinding] + v.g + v.h + v.scalars,
            ) == gout_identity()
        },
{
    reveal(crate::zk::evrf_proof::full_outcome);
    let points = Seq::new(pubs.peers.len(), |i: int| pubs.peers[i].r_commit@);
    assert(pad_commitments(pubs.peers) =~= points);
    assert(full_refused(params, pubs, None) is None);
}

/// A proof of the other mode is never accepted, and no full proof is for more recipients than
/// the parameters allow.
pub proof fn law_proofs_of_another_mode_are_refused(
    params: ZkParams,
    sid: Seq<u8>,
    pubs: InputsView,
    proof_sent: EvrfProof,
)
    ensures
        params.mode is Full && proof_sent is InsecureQuick ==> !accepted(
            params,
            sid,
            pubs,
            proof_sent,
        ),
        params.mode is InsecureQuick && proof_sent is Full ==> !accepted(
            params,
            sid,
            pubs,
            proof_sent,
        ),
        params.mode is Full && pubs.peers.len() > params.max_peers ==> !accepted(
            params,
            sid,
            pubs,
            proof_sent,
        ),
{
}


/// Public inputs are taken as they are given, and those for one recipient are the same inputs
/// with one recipient.
pub proof fn law_inputs_are_taken_whole(batch: BatchPublicInputs, one: EvrfPublicInputs)
    ensures
        batch@.pk1 == batch.pk1@,
        batch@.h1m == batch.h1m@,
        batch@.h2m == batch.h2m@,
        batch@.beta == batch.beta@,
        batch@.peers == batch.peers@,
        single_inputs(one).pk1 == one.pk1@,
        single_inputs(one).h1m == one.h1m@,
        single_inputs(one).h2m == one.h2m@,
        single_inputs(one).beta == one.beta@,
        single_inputs(one).peers.len() == 1,
        single_inputs(one).peers[0].pk2 == one.pk2,
        single_inputs(one).peers[0].r_commit == one.r_commit,
{
}

/// A proof is taken with all of its parts, and so is a check.
pub proof fn law_proofs_are_taken_whole(p: R1CSProof, v: VerificationCheck)
    ensures
        p@.a_i == p.a_i@,
        p@.a_o == p.a_o@,
        p@.s == p.s@,
        p@.t_1 == p.t_1@,
        p@.t_3 == p.t_3@,
        p@.t_4 == p.t_4@,
        p@.t_5 == p.t_5@,
        p@.t_6 == p.t_6@,
        p@.t_x == p.t_x@,
        p@.t_x_blinding == p.t_x_blinding@,
        p@.e_blinding == p.e_blinding@,
        p@.a == p.ipp.a@,
        p@.b == p.ipp.b@,
        p@.l.len() == p.ipp.l_vec@.len(),
        p@.r.len() == p.ipp.r_vec@.len(),
        forall|i: int| 0 <= i < p@.l.len() ==> #[trigger] p@.l[i] == p.ipp.l_vec@[i]@,
        forall|i: int| 0 <= i < p@.r.len() ==> #[trigger] p@.r[i] == p.ipp.r_vec@[i]@,
        v@.g.len() == v.g_scalars@.len(),
        v@.h.len() == v.h_scalars@.len(),
        v@.points.len() == v.points@.len(),
        v@.scalars.len() == v.scalars@.len(),
        v@.digest == v.digest@,
{
}

/// Parameters are made for as many recipients as one asks for, and at least one; and they are
/// in order where there are as many generators as the capacity says.
pub proof fn law_parameters(params: ZkParams, n: usize)
    ensures
        at_least_one(n) == (if n == 0 {
            1usize
        } else {
            n
        }),
        params.gens.g_vec@.len() == params.gens.gens_capacity && params.gens.h_vec@.len()
            == params.gens.gens_capacity && (params.mode is InsecureQuick || pad_len(
            gates_estimate(params.lambda as nat, params.max_peers as nat),
        ) <= usize::MAX) ==> params_ok(params),
{
}

/// What an honest party proves of its pad is accepted: with a key for its secret key, keys and
/// points of the prime-order subgroup, and a commitment to the pad of its witness. The
/// condition before the last is what [`crate::zk::evrf_proof::prove_evrf`] states of its
/// result, and the last one what [`crate::zk::evrf_proof::verify_evrf`] states of its own.
pub proof fn law_honest_pad_proof_verifies(
    params: ZkParams,
    sid: Seq<u8>,
    pubs: EvrfPublicInputs,
    sk: int,
    out: PadOutput,
    wit: EvrfWitness,
    made: EvrfProof,
    verdict: GoldenResult<()>,
)
    requires
        params.mode is Full ==> params.gens.in_group() && gout_is_pow(params.gens.b@, 1)
            && params.lambda >= 255,
        gin_is_pow(pubs.pk1@, sk),
        gin_in_group(pubs.pk2@),
        gin_in_group(pubs.h1m@),
        gin_in_group(pubs.h2m@),
        pad_made(sk, pubs.pk2@, pubs.h1m@, pubs.h2m@, pubs.beta@, out, wit),
        pubs.r_commit@ == out.r_commit@,
        honest_inputs(params, single_inputs(pubs), seq![wit]) ==> proof_in_group(
            params,
            sid,
            single_inputs(pubs),
            made,
        ) && exponents_accepted(params, sid, single_inputs(pubs), made),
        proof_in_group(params, sid, single_inputs(pubs), made) ==> (verdict is Ok
            <==> exponents_accepted(params, sid, single_inputs(pubs), made)),
    ensures
        verdict is Ok,
{
    let inputs = single_inputs(pubs);
    let wits = seq![wit];
    if params.mode is Full {
        let n = params.lambda as nat;
        crate::zk::honest::lemma_order_bits(n);
        crate::field::lemma_fs_order();
        crate::field::lemma_fs_range(wit.sk);
        crate::field::lemma_fp_range(wit.s.x);
        let w = start_system(1, Some(pads(wits))).w->Some_0;
        assert(wire(committed_vars(1)[0], w) == wit.r@);
        assert(honest_peer(
            w,
            sk,
            inputs.peers[0].pk2@,
            input_bases(inputs),
            committed_vars(1)[0],
            wit,
            n,
        ));
    }
    assert(honest_inputs(params, inputs, wits));
}


/// With points of the curve the circuit can always be computed, whatever the number of
/// recipients, by a prover and by a verifier.
pub proof fn law_points_of_the_curve_are_usable(sk: Option<int>, pubs: InputsView, lambda: nat)
    requires
        gin_on_curve(pubs.h1m),
        gin_on_curve(pubs.h2m),
        forall|i: int| 0 <= i < pubs.peers.len() ==> gin_on_curve((#[trigger] pubs.peers[i]).pk2@),
    ensures
        inputs_usable(sk, pubs, lambda),
{
    let keys = peer_keys(pubs.peers);
    assert forall|i: int| 0 <= i < keys.len() implies peer_usable(
        digits(sk, lambda),
        #[trigger] keys[i],
        input_bases(pubs),
        lambda,
    ) by {
        assert(keys[i] == pubs.peers[i].pk2@);
    }
}

/// Vectors are padded to the least power of two that holds them, and an argument over a power
/// of two has as many rounds as it has doublings.
pub proof fn law_padded_length(n: nat)
    ensures
        pad_len(n) >= n,
        exists|k: nat| #[trigger] pow2(k) == pad_len(n),
        forall|j: nat| #[trigger] pow2(j) >= n ==> pad_len(n) <= pow2(j),
        forall|k: nat| k < 64 ==> #[trigger] rounds_fit(k, pow2(k)),
        forall|k: nat| rounds_fit(k, n) ==> n == #[trigger] pow2(k),
{
    lemma_pad_len(n);
    assert(is_two_power(pad_len(n)));
}

} // verus!
