//! The transcripts that the challenges of proofs are drawn from, message by message.
use crate::curves::{gin_bytes, gout_bytes, GoutPoint};
use crate::field::{fp_order, le_bytes, le_value, lemma_le_bytes_value, lemma_order_bytes};
use crate::transcript::{transcript_challenge, TranscriptEvent};
use crate::zk::bp_protocol::{challenges, check_digest, ProofView};
use crate::zk::evrf_circuit::EvrfPeerInputs;
use crate::zk::evrf_proof::{
    committed_log, full_log, inputs_log, peers_log, quick_challenge, quick_log, InputsView,
    SchnorrR, ZkParams,
};
use crate::zk::ipa::{ipa_challenges, ipa_log};
use vstd::bytes::{lemma_auto_spec_u64_to_from_le_bytes, spec_u64_to_le_bytes};
use vstd::prelude::*;
use vstd::string::StringSliceAdditionalSpecFns;

verus! {

/// A labelled message.
pub open spec fn sent(label: Seq<u8>, bytes: Seq<u8>) -> TranscriptEvent {
    TranscriptEvent::Append { label, message: bytes }
}

/// The drawing of a field challenge.
pub open spec fn draw(label: Seq<u8>) -> TranscriptEvent {
    TranscriptEvent::Challenge { label, len: 64 }
}

/// The field challenge with a label that a transcript gives.
pub open spec fn drawn(events: Seq<TranscriptEvent>, label: Seq<u8>) -> int {
    le_value(transcript_challenge(events, label, 64)) % fp_order()
}

// ─── the inner-product argument ─────────────────────────────────────────────

/// The first `len` messages and drawings of the rounds of an argument: of every round, its
/// two points and then its challenge.
pub open spec fn round_events(
    start: Seq<TranscriptEvent>,
    l: Seq<GoutPoint>,
    r: Seq<GoutPoint>,
    len: nat,
) -> Seq<TranscriptEvent> {
    start + Seq::new(
        len,
        |i: int|
            if i % 3 == 0 {
                sent("L".spec_bytes(), gout_bytes(l[i / 3]))
            } else if i % 3 == 1 {
                sent("R".spec_bytes(), gout_bytes(r[i / 3]))
            } else {
                draw("u".spec_bytes())
            },
    )
}

/// One round less.
proof fn lemma_round_events(
    start: Seq<TranscriptEvent>,
    l: Seq<GoutPoint>,
    r: Seq<GoutPoint>,
    len: nat,
)
    requires
        3 <= len <= 3 * l.len(),
        l.len() <= r.len(),
    ensures
        round_events(start, l, r, len) == round_events(
            start.push(sent("L".spec_bytes(), gout_bytes(l[0]))).push(
                sent("R".spec_bytes(), gout_bytes(r[0])),
            ).push(draw("u".spec_bytes())),
            l.drop_first(),
            r.drop_first(),
            (len - 3) as nat,
        ),
{
    let first = start.push(sent("L".spec_bytes(), gout_bytes(l[0]))).push(
        sent("R".spec_bytes(), gout_bytes(r[0])),
    ).push(draw("u".spec_bytes()));
    let a = round_events(start, l, r, len);
    let b = round_events(first, l.drop_first(), r.drop_first(), (len - 3) as nat);
    assert(a.len() == b.len());
    assert forall|i: int| 0 <= i < a.len() implies a[i] == b[i] by {
        let k = i - start.len();
        if k >= 3 {
            assert((k - 3) % 3 == k % 3);
            assert((k - 3) / 3 == k / 3 - 1);
            if k % 3 != 2 {
                assert(l.drop_first()[k / 3 - 1] == l[k / 3]);
                assert(r.drop_first()[k / 3 - 1] == r[k / 3]);
            }
        }
    }
    assert(a =~= b);
}

/// The challenge of round `k` of an inner-product argument is drawn after the points of that
/// round and of all rounds before it.
pub proof fn law_round_challenges(
    log: Seq<TranscriptEvent>,
    l: Seq<GoutPoint>,
    r: Seq<GoutPoint>,
)
    requires
        r.len() >= l.len(),
    ensures
        ipa_challenges(log, l, r).len() == l.len(),
        forall|k: int|
            0 <= k < l.len() ==> #[trigger] ipa_challenges(log, l, r)[k] == drawn(
                round_events(log, l, r, (3 * k + 2) as nat),
                "u".spec_bytes(),
            ),
        ipa_log(log, l, r) == round_events(log, l, r, 3 * l.len()),
    decreases l.len(),
{
    let us = ipa_challenges(log, l, r);
    if l.len() == 0 {
        assert(round_events(log, l, r, 0) =~= log);
    } else {
        let log1 = log.push(sent("L".spec_bytes(), gout_bytes(l[0]))).push(
            sent("R".spec_bytes(), gout_bytes(r[0])),
        );
        let log2 = log1.push(draw("u".spec_bytes()));
        let (l2, r2) = (l.drop_first(), r.drop_first());
        law_round_challenges(log2, l2, r2);
        lemma_round_events(log, l, r, 3 * l.len());
        let vs = ipa_challenges(log2, l2, r2);
        assert forall|k: int| 0 <= k < l.len() implies #[trigger] us[k] == drawn(
            round_events(log, l, r, (3 * k + 2) as nat),
            "u".spec_bytes(),
        ) by {
            if k == 0 {
                assert(round_events(log, l, r, 2) =~= log1);
            } else {
                assert(us[k] == vs[k - 1]);
                lemma_round_events(log, l, r, (3 * k + 2) as nat);
            }
        }
    }
}

// ─── proofs of constraint systems ───────────────────────────────────────────

/// The transcript after the commitments to the wires.
pub open spec fn wire_events(log: Seq<TranscriptEvent>, m: nat, p: ProofView) -> Seq<
    TranscriptEvent,
> {
    log + seq![
        sent("m".spec_bytes(), spec_u64_to_le_bytes(m as u64)),
        sent("A_I".spec_bytes(), gout_bytes(p.a_i)),
        sent("A_O".spec_bytes(), gout_bytes(p.a_o)),
        sent("S".spec_bytes(), gout_bytes(p.s)),
    ]
}

/// The transcript after the commitments to the coefficients of `t(x)`.
pub open spec fn coefficient_events(log: Seq<TranscriptEvent>, m: nat, p: ProofView) -> Seq<
    TranscriptEvent,
> {
    wire_events(log, m, p) + seq![
        draw("y".spec_bytes()),
        draw("z".spec_bytes()),
        sent("T_1".spec_bytes(), gout_bytes(p.t_1)),
        sent("T_3".spec_bytes(), gout_bytes(p.t_3)),
        sent("T_4".spec_bytes(), gout_bytes(p.t_4)),
        sent("T_5".spec_bytes(), gout_bytes(p.t_5)),
        sent("T_6".spec_bytes(), gout_bytes(p.t_6)),
        draw("u".spec_bytes()),
    ]
}

/// The transcript after the openings.
pub open spec fn opening_events(log: Seq<TranscriptEvent>, m: nat, p: ProofView) -> Seq<
    TranscriptEvent,
> {
    coefficient_events(log, m, p) + seq![
        draw("x".spec_bytes()),
        sent("t_x".spec_bytes(), le_bytes(p.t_x, 32)),
        sent("t_x_blinding".spec_bytes(), le_bytes(p.t_x_blinding, 32)),
        sent("e_blinding".spec_bytes(), le_bytes(p.e_blinding, 32)),
    ]
}

/// Every challenge of a proof is drawn from a transcript of all that was sent before it: `y`
/// and `z` after the commitments to the wires, `x` after those to the coefficients of
/// `t(x)`, `w` after the openings, those of the inner-product argument after the points of
/// their rounds, and the last one after all rounds. The digest of a check is drawn after all
/// of them, and after the final scalars.
pub proof fn law_proof_challenges(log: Seq<TranscriptEvent>, m: nat, p: ProofView)
    requires
        p.r.len() >= p.l.len(),
    ensures
        ({
            let ch = challenges(log, m, p);
            let wires = wire_events(log, m, p);
            let rounds = opening_events(log, m, p).push(draw("w".spec_bytes()));
            let end = round_events(rounds, p.l, p.r, 3 * p.l.len());
            &&& ch.y == drawn(wires, "y".spec_bytes())
            &&& ch.z == drawn(wires.push(draw("y".spec_bytes())), "z".spec_bytes())
            &&& ch.x == drawn(coefficient_events(log, m, p), "x".spec_bytes())
            &&& ch.w == drawn(opening_events(log, m, p), "w".spec_bytes())
            &&& ch.us.len() == p.l.len()
            &&& forall|k: int|
                0 <= k < p.l.len() ==> #[trigger] ch.us[k] == drawn(
                    round_events(rounds, p.l, p.r, (3 * k + 2) as nat),
                    "u".spec_bytes(),
                )
            &&& ch.r == drawn(end, "r".spec_bytes())
            &&& check_digest(ch.log, p.a, p.b) == transcript_challenge(
                end + seq![
                    draw("r".spec_bytes()),
                    sent("a".spec_bytes(), le_bytes(p.a, 32)),
                    sent("b".spec_bytes(), le_bytes(p.b, 32)),
                ],
                "digest".spec_bytes(),
                32,
            )
        }),
{
    let ch = challenges(log, m, p);
    let wires = wire_events(log, m, p);
    let coefficients = coefficient_events(log, m, p);
    let openings = opening_events(log, m, p);
    let rounds = openings.push(draw("w".spec_bytes()));
    let end = round_events(rounds, p.l, p.r, 3 * p.l.len());
    let log1 = crate::zk::bp_protocol::commit_log(log, m, p.a_i, p.a_o, p.s);
    let log2 = crate::zk::bp_protocol::poly_log(log1, p.t_1, p.t_3, p.t_4, p.t_5, p.t_6);
    let log3 = crate::zk::bp_protocol::open_log(log2, p.t_x, p.t_x_blinding, p.e_blinding);
    assert(log1 =~= wires);
    assert(log2.push(draw("u".spec_bytes())) =~= coefficients);
    assert(log3 =~= openings);
    assert(crate::zk::bp_protocol::rounds_start(log3) =~= rounds);
    law_round_challenges(rounds, p.l, p.r);
    assert(ch.log =~= end.push(draw("r".spec_bytes())));
    assert(ch.log.push(sent("a".spec_bytes(), le_bytes(p.a, 32))).push(
        sent("b".spec_bytes(), le_bytes(p.b, 32)),
    ) =~= end + seq![
        draw("r".spec_bytes()),
        sent("a".spec_bytes(), le_bytes(p.a, 32)),
        sent("b".spec_bytes(), le_bytes(p.b, 32)),
    ]);
}

// ─── pad proofs ─────────────────────────────────────────────────────────────

/// The transcript of a pad proof before its messages.
pub open spec fn input_events(lambda: usize, sid: Seq<u8>, pubs: InputsView) -> Seq<
    TranscriptEvent,
> {
    seq![
        sent("dom-sep".spec_bytes(), "golden-nidkg/evrf-batch-proof/v1".spec_bytes()),
        sent("sid".spec_bytes(), sid),
        sent("lambda".spec_bytes(), spec_u64_to_le_bytes(lambda as u64)),
        sent("PK1".spec_bytes(), gin_bytes(pubs.pk1)),
        sent("H1m".spec_bytes(), gin_bytes(pubs.h1m)),
        sent("H2m".spec_bytes(), gin_bytes(pubs.h2m)),
        sent("beta".spec_bytes(), le_bytes(pubs.beta, 32)),
        sent("n_peers".spec_bytes(), spec_u64_to_le_bytes(pubs.peers.len() as u64)),
    ] + Seq::new(
        2 * pubs.peers.len(),
        |i: int|
            if i % 2 == 0 {
                sent("PK2".spec_bytes(), gin_bytes(pubs.peers[i / 2].pk2@))
            } else {
                sent("R".spec_bytes(), gout_bytes(pubs.peers[i / 2].r_commit@))
            },
    )
}

proof fn lemma_peers_log(log: Seq<TranscriptEvent>, peers: Seq<EvrfPeerInputs>)
    ensures
        peers_log(log, peers) == log + Seq::new(
            2 * peers.len(),
            |i: int|
                if i % 2 == 0 {
                    sent("PK2".spec_bytes(), gin_bytes(peers[i / 2].pk2@))
                } else {
                    sent("R".spec_bytes(), gout_bytes(peers[i / 2].r_commit@))
                },
        ),
    decreases peers.len(),
{
    let events = Seq::new(
        2 * peers.len(),
        |i: int|
            if i % 2 == 0 {
                sent("PK2".spec_bytes(), gin_bytes(peers[i / 2].pk2@))
            } else {
                sent("R".spec_bytes(), gout_bytes(peers[i / 2].r_commit@))
            },
    );
    if peers.len() == 0 {
        assert(log + events =~= log);
    } else {
        let rest = peers.drop_last();
        lemma_peers_log(log, rest);
        let (a, b) = (peers_log(log, peers), log + events);
        assert forall|i: int| 0 <= i < b.len() implies a[i] == b[i] by {
            let k = i - log.len();
            if 0 <= k < 2 * rest.len() {
                assert(rest[k / 2] == peers[k / 2]);
            }
        }
        assert(a =~= b);
    }
}

/// A pad proof is bound to the session, the number of bits and all public inputs: they are
/// the first messages of its transcript.
pub proof fn law_inputs_come_first(lambda: usize, sid: Seq<u8>, pubs: InputsView)
    ensures
        inputs_log(lambda, sid, pubs) == input_events(lambda, sid, pubs),
{
    let head = seq![
        sent("dom-sep".spec_bytes(), "golden-nidkg/evrf-batch-proof/v1".spec_bytes()),
        sent("sid".spec_bytes(), sid),
        sent("lambda".spec_bytes(), spec_u64_to_le_bytes(lambda as u64)),
        sent("PK1".spec_bytes(), gin_bytes(pubs.pk1)),
        sent("H1m".spec_bytes(), gin_bytes(pubs.h1m)),
        sent("H2m".spec_bytes(), gin_bytes(pubs.h2m)),
        sent("beta".spec_bytes(), le_bytes(pubs.beta, 32)),
        sent("n_peers".spec_bytes(), spec_u64_to_le_bytes(pubs.peers.len() as u64)),
    ];
    lemma_peers_log(head, pubs.peers);
    assert(inputs_log(lambda, sid, pubs) == peers_log(head, pubs.peers));
}

/// Two proofs with the same transcript before their messages are of one session, one number
/// of bits, and the same public inputs, recipient by recipient.
pub proof fn law_inputs_are_bound(
    lambda1: usize,
    sid1: Seq<u8>,
    pubs1: InputsView,
    lambda2: usize,
    sid2: Seq<u8>,
    pubs2: InputsView,
)
    requires
        inputs_log(lambda1, sid1, pubs1) == inputs_log(lambda2, sid2, pubs2),
        0 <= pubs1.beta < fp_order(),
        0 <= pubs2.beta < fp_order(),
    ensures
        lambda1 == lambda2,
        sid1 == sid2,
        gin_bytes(pubs1.pk1) == gin_bytes(pubs2.pk1),
        gin_bytes(pubs1.h1m) == gin_bytes(pubs2.h1m),
        gin_bytes(pubs1.h2m) == gin_bytes(pubs2.h2m),
        pubs1.beta == pubs2.beta,
        pubs1.peers.len() == pubs2.peers.len(),
        forall|i: int|
            0 <= i < pubs1.peers.len() ==> gin_bytes((#[trigger] pubs1.peers[i]).pk2@) == gin_bytes(
                pubs2.peers[i].pk2@,
            ) && gout_bytes(pubs1.peers[i].r_commit@) == gout_bytes(pubs2.peers[i].r_commit@),
{
    law_inputs_come_first(lambda1, sid1, pubs1);
    law_inputs_come_first(lambda2, sid2, pubs2);
    let (a, b) = (input_events(lambda1, sid1, pubs1), input_events(lambda2, sid2, pubs2));
    assert(a.len() == b.len());
    assert(a[1] == b[1] && a[2] == b[2] && a[3] == b[3] && a[4] == b[4] && a[5] == b[5] && a[6]
        == b[6]);
    lemma_auto_spec_u64_to_from_le_bytes();
    lemma_order_bytes();
    lemma_le_bytes_value(pubs1.beta, 32);
    lemma_le_bytes_value(pubs2.beta, 32);
    assert forall|i: int| 0 <= i < pubs1.peers.len() implies gin_bytes(
        (#[trigger] pubs1.peers[i]).pk2@,
    ) == gin_bytes(pubs2.peers[i].pk2@) && gout_bytes(pubs1.peers[i].r_commit@) == gout_bytes(
        pubs2.peers[i].r_commit@,
    ) by {
        let (e, o) = (8 + 2 * i, 8 + 2 * i + 1);
        assert((2 * i) % 2 == 0 && (2 * i) / 2 == i && (2 * i + 1) % 2 == 1 && (2 * i + 1) / 2 == i);
        assert(a[e] == b[e] && a[o] == b[o]);
    }
}

proof fn lemma_committed_log(log: Seq<TranscriptEvent>, points: Seq<GoutPoint>)
    ensures
        committed_log(log, points) == log + Seq::new(
            points.len(),
            |i: int| sent("V".spec_bytes(), gout_bytes(points[i])),
        ),
    decreases points.len(),
{
    let events = Seq::new(
        points.len(),
        |i: int| sent("V".spec_bytes(), gout_bytes(points[i])),
    );
    if points.len() == 0 {
        assert(log + events =~= log);
    } else {
        lemma_committed_log(log, points.drop_last());
        assert(committed_log(log, points) =~= log + events);
    }
}

/// The transcript of a full proof goes on with the name of the protocol and the commitments.
pub proof fn law_full_proofs_start_from_the_inputs(
    params: ZkParams,
    sid: Seq<u8>,
    pubs: InputsView,
    points: Seq<GoutPoint>,
)
    ensures
        full_log(params, sid, pubs, points) == input_events(params.lambda, sid, pubs) + seq![
            sent("dom-sep".spec_bytes(), "golden-nidkg/bp-r1cs/v1".spec_bytes()),
        ] + Seq::new(points.len(), |i: int| sent("V".spec_bytes(), gout_bytes(points[i]))),
{
    reveal(full_log);
    law_inputs_come_first(params.lambda, sid, pubs);
    let log = input_events(params.lambda, sid, pubs).push(
        sent("dom-sep".spec_bytes(), "golden-nidkg/bp-r1cs/v1".spec_bytes()),
    );
    lemma_committed_log(log, points);
    assert(full_log(params, sid, pubs, points) =~= input_events(params.lambda, sid, pubs) + seq![
        sent("dom-sep".spec_bytes(), "golden-nidkg/bp-r1cs/v1".spec_bytes()),
    ] + Seq::new(points.len(), |i: int| sent("V".spec_bytes(), gout_bytes(points[i]))));
}

// ─── Schnorr proofs of pads ─────────────────────────────────────────────────

/// The first `len` messages and drawings of the Schnorr proofs: of each, the pad commitment,
/// the commitment of the proof, and its challenge.
pub open spec fn quick_events(
    start: Seq<TranscriptEvent>,
    peers: Seq<EvrfPeerInputs>,
    proofs: Seq<SchnorrR>,
    len: nat,
) -> Seq<TranscriptEvent> {
    start + Seq::new(
        len,
        |i: int|
            if i % 3 == 0 {
                sent("Rj".spec_bytes(), gout_bytes(peers[i / 3].r_commit@))
            } else if i % 3 == 1 {
                sent("commit".spec_bytes(), gout_bytes(proofs[i / 3].commitment@))
            } else {
                draw("c".spec_bytes())
            },
    )
}

proof fn lemma_quick_log(
    start: Seq<TranscriptEvent>,
    peers: Seq<EvrfPeerInputs>,
    proofs: Seq<SchnorrR>,
    i: nat,
)
    ensures
        quick_log(start, peers, proofs, i) == quick_events(start, peers, proofs, 3 * i),
    decreases i,
{
    let b = quick_events(start, peers, proofs, 3 * i);
    if i == 0 {
        assert(b =~= start);
    } else {
        lemma_quick_log(start, peers, proofs, (i - 1) as nat);
        let k = 3 * i - 3;
        assert(k % 3 == 0 && k / 3 == i - 1);
        assert((k + 1) % 3 == 1 && (k + 1) / 3 == i - 1);
        assert((k + 2) % 3 == 2);
        assert(quick_log(start, peers, proofs, i) =~= b);
    }
}

/// The challenge of Schnorr proof `i` is drawn after all public inputs, after the proofs
/// before it, and after the two points that it is about.
pub proof fn law_quick_challenge(
    lambda: usize,
    sid: Seq<u8>,
    pubs: InputsView,
    proofs: Seq<SchnorrR>,
    i: nat,
)
    ensures
        quick_challenge(inputs_log(lambda, sid, pubs), pubs.peers, proofs, i) == drawn(
            quick_events(input_events(lambda, sid, pubs), pubs.peers, proofs, 3 * i + 2),
            "c".spec_bytes(),
        ),
{
    let start = input_events(lambda, sid, pubs);
    law_inputs_come_first(lambda, sid, pubs);
    lemma_quick_log(start, pubs.peers, proofs, i);
    let k = 3 * i as int;
    assert(k % 3 == 0 && k / 3 == i);
    assert((k + 1) % 3 == 1 && (k + 1) / 3 == i);
    assert(crate::zk::evrf_proof::quick_message(start, pubs.peers, proofs, i) =~= quick_events(
        start,
        pubs.peers,
        proofs,
        3 * i + 2,
    ));
}

} // verus!
