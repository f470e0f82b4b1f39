//! What a batch of checks is weighted with, and what it rejects.
use crate::algebra::{
    cong, is_prime, lemma_cong_add, lemma_cong_mul, lemma_mod_reduced, lemma_sigma_cong,
    lemma_sigma_eq, lemma_sigma_zero, sigma,
};
use crate::field::{fp_order, le_value, lemma_fp_order};
use crate::transcript::{transcript_challenge, TranscriptEvent};
use crate::zk::bp_laws::{
    batch_exponent, check_exponent, lemma_check_exponent, lemma_combined_exponent,
    lemma_weight_apart,
};
use crate::zk::bp_protocol::{
    batch_start, batch_weights, check_fits, check_vanishes, combined_check, digests_log, weight_log,
    CheckView,
};
use crate::zk::generators::BpGens;
use vstd::bytes::spec_u64_to_le_bytes;
use vstd::prelude::*;
use vstd::string::StringSliceAdditionalSpecFns;

verus! {

/// The transcript of a batch when weight `i` is drawn: the number of checks, the digest of
/// every check, and the weights before it.
pub open spec fn batch_events(checks: Seq<CheckView>, i: nat) -> Seq<TranscriptEvent> {
    Seq::new(
        2 + checks.len() + i,
        |k: int|
            if k == 0 {
                TranscriptEvent::Append {
                    label: "dom-sep".spec_bytes(),
                    message: "golden-nidkg/bp-batch/v1".spec_bytes(),
                }
            } else if k == 1 {
                TranscriptEvent::Append {
                    label: "n".spec_bytes(),
                    message: spec_u64_to_le_bytes(checks.len() as u64),
                }
            } else if k < 2 + checks.len() {
                TranscriptEvent::Append {
                    label: "digest".spec_bytes(),
                    message: checks[k - 2].digest,
                }
            } else {
                TranscriptEvent::Challenge { label: "rho".spec_bytes(), len: 64 }
            },
    )
}

/// The challenge that is drawn as weight `i`.
pub open spec fn drawn_weight(checks: Seq<CheckView>, i: nat) -> int {
    le_value(transcript_challenge(batch_events(checks, i), "rho".spec_bytes(), 64)) % fp_order()
}

proof fn lemma_digests_log(log: Seq<TranscriptEvent>, checks: Seq<CheckView>)
    ensures
        digests_log(log, checks) == log + Seq::new(
            checks.len(),
            |k: int|
                TranscriptEvent::Append {
                    label: "digest".spec_bytes(),
                    message: checks[k].digest,
                },
        ),
    decreases checks.len(),
{
    let events = Seq::new(
        checks.len(),
        |k: int|
            TranscriptEvent::Append { label: "digest".spec_bytes(), message: checks[k].digest },
    );
    if checks.len() == 0 {
        assert(log + events =~= log);
    } else {
        lemma_digests_log(log, checks.drop_last());
        assert(digests_log(log, checks) =~= log + events);
    }
}

proof fn lemma_weight_log(log: Seq<TranscriptEvent>, i: nat)
    ensures
        weight_log(log, i) == log + Seq::new(
            i,
            |k: int| TranscriptEvent::Challenge { label: "rho".spec_bytes(), len: 64 },
        ),
    decreases i,
{
    let events = Seq::new(
        i,
        |k: int| TranscriptEvent::Challenge { label: "rho".spec_bytes(), len: 64 },
    );
    if i == 0 {
        assert(log + events =~= log);
    } else {
        lemma_weight_log(log, (i - 1) as nat);
        assert(weight_log(log, i) =~= log + events);
    }
}

/// Every weight of a batch is a challenge of its own, whatever its index: it is drawn after
/// the digests of all checks and after the weights before it.
pub proof fn law_every_weight_is_drawn(checks: Seq<CheckView>, i: int)
    requires
        0 <= i < checks.len(),
    ensures
        batch_weights(checks).len() == checks.len(),
        batch_weights(checks)[i] == drawn_weight(checks, i as nat),
{
    let log = batch_start(checks.len());
    lemma_digests_log(log, checks);
    lemma_weight_log(digests_log(log, checks), i as nat);
    assert(weight_log(digests_log(log, checks), i as nat) =~= batch_events(checks, i as nat));
}

/// A batch passes exactly where the sum of the exponents of its checks, each times the
/// challenge drawn for it, vanishes.
pub proof fn law_batch_is_a_weighted_sum(gens: BpGens, checks: Seq<CheckView>)
    requires
        gens.well_formed(),
        forall|i: int| 0 <= i < checks.len() ==> check_fits(gens, #[trigger] checks[i]),
    ensures
        check_vanishes(gens, combined_check(checks, batch_weights(checks))) <==> cong(
            sigma(
                checks.len(),
                |i: int| drawn_weight(checks, i as nat) * check_exponent(gens, checks[i]),
            ),
            0,
            fp_order(),
        ),
{
    let weights = batch_weights(checks);
    lemma_combined_exponent(gens, checks, weights);
    let f = |i: int| weights[i] * check_exponent(gens, checks[i]);
    let g = |i: int| drawn_weight(checks, i as nat) * check_exponent(gens, checks[i]);
    assert forall|i: int| 0 <= i < checks.len() implies #[trigger] f(i) == g(i) by {
        law_every_weight_is_drawn(checks, i);
    }
    lemma_sigma_eq(checks.len(), f, g);
}

/// A batch with one bad check, at whatever index, is rejected unless the challenge drawn for
/// that check is zero.
pub proof fn law_batch_rejects_a_bad_check(gens: BpGens, checks: Seq<CheckView>, j: int)
    requires
        is_prime(fp_order()),
        gens.well_formed(),
        0 <= j < checks.len(),
        forall|i: int| 0 <= i < checks.len() ==> check_fits(gens, #[trigger] checks[i]),
        forall|i: int|
            0 <= i < checks.len() && i != j ==> check_vanishes(gens, #[trigger] checks[i]),
        !check_vanishes(gens, checks[j]),
        drawn_weight(checks, j as nat) != 0,
    ensures
        !check_vanishes(gens, combined_check(checks, batch_weights(checks))),
{
    let p = fp_order();
    lemma_fp_order();
    let weights = batch_weights(checks);
    law_every_weight_is_drawn(checks, j);
    lemma_combined_exponent(gens, checks, weights);
    lemma_weight_apart(gens, checks, weights, j);
    let w0 = weights.update(j, 0);
    let f = |i: int| w0[i] * check_exponent(gens, checks[i]);
    let none = |i: int| 0int;
    assert forall|i: int| 0 <= i < checks.len() implies cong(#[trigger] f(i), none(i), p) by {
        let e = check_exponent(gens, checks[i]);
        if i == j {
            assert(0 * e == 0);
        } else {
            assert(check_fits(gens, checks[i]) && check_vanishes(gens, checks[i]));
            lemma_check_exponent(gens, checks[i]);
            let w = w0[i];
            lemma_cong_mul(w, w, e, 0, p);
            assert(w * 0 == 0);
        }
    }
    lemma_sigma_cong(checks.len(), f, none, p);
    lemma_sigma_zero(checks.len(), none);
    let (r, w, e) = (
        batch_exponent(gens, checks, w0),
        weights[j],
        check_exponent(gens, checks[j]),
    );
    lemma_sigma_eq(checks.len(), f, |i: int| w0[i] * check_exponent(gens, checks[i]));
    assert(check_fits(gens, checks[j]));
    lemma_check_exponent(gens, checks[j]);
    lemma_cong_add(r, 0, w * e, w * e, p);
    lemma_mod_reduced(0, p);
    if cong(w * e, 0, p) {
        assert((w * e) % p == 0);
        lemma_mod_reduced(w, p);
    }
}

} // verus!
