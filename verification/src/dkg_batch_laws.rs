//! How the verdict on a batch of dealings stands to the verdicts on each of them.
use crate::curves::{gouts_in_group, GinAffine};
use crate::dkg::{
    blames, check_passes, checks_in_group, collect_error, collect_fails, dealing_inputs,
    dealing_list, dealing_outcome, dealing_verified, dealings_verified, first_failure,
    first_offender, hashes_exist, none_fails, only_checks, pending_checks, structure_error, Dealing,
    DkgConfig,
};
use crate::errors::{GoldenError, GoldenResult};
use crate::zk::bp_laws::{law_passing_batch_with_a_bad_check_is_lucky, lucky_weight};
use crate::zk::bp_protocol::{batch_weights, check_fits, check_vanishes, CheckView};
use crate::zk::evrf_proof::{lemma_full_group, params_ok, proof_in_group, Outcome, ZkParams};
use crate::zk::generators::BpGens;
use crate::maps::{lemma_ordered_lists, ordered};
use crate::algebra::is_prime;
use crate::field::fp_order;
use crate::zk::batch_laws::{drawn_weight, law_batch_rejects_a_bad_check};
use vstd::prelude::*;

verus! {

/// Entry `k` of the checks comes from one of the dealings.
proof fn lemma_pending_source(
    ds: Seq<Dealing>,
    cfg: DkgConfig,
    pki: Map<u32, GinAffine>,
    zk: ZkParams,
    k: int,
) -> (i: int)
    requires
        0 <= k < pending_checks(ds, cfg, pki, zk).len(),
    ensures
        0 <= i < ds.len(),
        ({
            let p = pending_checks(ds, cfg, pki, zk)[k];
            p.0 == ds[i].dealer && dealing_outcome(ds[i], cfg, pki, zk) == Outcome::Pending(p.1)
        }),
    decreases ds.len(),
{
    let rest = pending_checks(ds.drop_last(), cfg, pki, zk);
    if k < rest.len() {
        let i = lemma_pending_source(ds.drop_last(), cfg, pki, zk, k);
        assert(ds.drop_last()[i] == ds[i]);
        i
    } else {
        ds.len() - 1
    }
}

/// The check of a dealing that has one is an entry of the checks.
proof fn lemma_pending_entry(
    ds: Seq<Dealing>,
    cfg: DkgConfig,
    pki: Map<u32, GinAffine>,
    zk: ZkParams,
    i: int,
) -> (k: int)
    requires
        0 <= i < ds.len(),
        dealing_outcome(ds[i], cfg, pki, zk) is Pending,
    ensures
        0 <= k < pending_checks(ds, cfg, pki, zk).len(),
        dealing_outcome(ds[i], cfg, pki, zk) == Outcome::Pending(
            pending_checks(ds, cfg, pki, zk)[k].1,
        ),
    decreases ds.len(),
{
    let rest = pending_checks(ds.drop_last(), cfg, pki, zk);
    if i < ds.len() - 1 {
        assert(ds.drop_last()[i] == ds[i]);
        lemma_pending_entry(ds.drop_last(), cfg, pki, zk, i)
    } else {
        rest.len() as int
    }
}

/// The first offender has a check that does not pass.
proof fn lemma_offender(gens: BpGens, ps: Seq<(u32, CheckView)>) -> (k: int)
    requires
        first_offender(gens, ps) is Some,
    ensures
        0 <= k < ps.len(),
        ps[k].0 == first_offender(gens, ps)->Some_0,
        !check_passes(gens, ps[k].1),
    decreases ps.len(),
{
    if !check_passes(gens, ps[0].1) {
        0
    } else {
        let k = lemma_offender(gens, ps.drop_first());
        assert(ps.drop_first()[k] == ps[k + 1]);
        k + 1
    }
}

/// A dealing that fails before its check is made up does not verify.
proof fn lemma_failing_dealing(
    d: Dealing,
    cfg: DkgConfig,
    pki: Map<u32, GinAffine>,
    zk: ZkParams,
    expect_zero_secret: bool,
    res: GoldenResult<()>,
)
    requires
        dealing_verified(d, cfg, pki, zk, expect_zero_secret, res),
        collect_fails(d, cfg, pki, zk, expect_zero_secret),
    ensures
        res is Err,
{
}

/// A dealing whose check is in the prime-order group verifies exactly where the check
/// vanishes.
proof fn lemma_pending_dealing(
    d: Dealing,
    cfg: DkgConfig,
    pki: Map<u32, GinAffine>,
    zk: ZkParams,
    expect_zero_secret: bool,
    res: GoldenResult<()>,
    v: CheckView,
)
    requires
        dealing_verified(d, cfg, pki, zk, expect_zero_secret, res),
        !collect_fails(d, cfg, pki, zk, expect_zero_secret),
        dealing_outcome(d, cfg, pki, zk) == Outcome::Pending(v),
        zk.gens.in_group(),
        gouts_in_group(v.points),
    ensures
        res is Ok <==> check_vanishes(*zk.gens, v),
        res is Ok <==> check_passes(*zk.gens, v),
{
    let pubs = dealing_inputs(d, cfg, pki);
    assert(zk.mode is Full);
    lemma_full_group(zk, cfg.sid@, pubs, d.proof);
    assert(proof_in_group(zk, cfg.sid@, pubs, d.proof)) by {
        reveal(proof_in_group);
    }
}

/// The error of a batch is that of dealing `d`: its own error, or that its proof fails.
pub open spec fn names(
    e: GoldenError,
    d: Dealing,
    cfg: DkgConfig,
    pki: Map<u32, GinAffine>,
    zk: ZkParams,
    expect_zero_secret: bool,
) -> bool {
    ||| collect_error(d, cfg, pki, zk, expect_zero_secret, e)
    ||| blames(e, d.dealer, "R1CS verification failed"@)
}

/// The verdict on a batch and the verdicts on each dealing, where the points of the
/// proofs are in the prime-order group. If every dealing verifies, the batch does. An
/// error names a dealing that does not verify. A batch that verifies although a dealing
/// does not has been lucky: the weight of that dealing's check is a root of a polynomial
/// that is not zero.
pub proof fn law_batch_verdict(
    dealings: Map<u32, Dealing>,
    cfg: DkgConfig,
    pki: Map<u32, GinAffine>,
    zk: ZkParams,
    expect_zero_secret: bool,
    res: GoldenResult<()>,
    results: Seq<GoldenResult<()>>,
)
    requires
        params_ok(zk),
        dealings_verified(dealings, cfg, pki, zk, expect_zero_secret, res),
        results.len() == dealing_list(dealings).len(),
        forall|i: int|
            0 <= i < results.len() ==> dealing_verified(
                dealing_list(dealings)[i],
                cfg,
                pki,
                zk,
                expect_zero_secret,
                #[trigger] results[i],
            ),
        pending_checks(dealing_list(dealings), cfg, pki, zk).len() > 0 ==> checks_in_group(
            *zk.gens,
            pending_checks(dealing_list(dealings), cfg, pki, zk),
        ),
    ensures
        (forall|i: int| 0 <= i < results.len() ==> (#[trigger] results[i]) is Ok) ==> res is Ok,
        res matches Err(e) ==> exists|i: int|
            0 <= i < results.len() && (#[trigger] results[i]) is Err && names(
                e,
                dealing_list(dealings)[i],
                cfg,
                pki,
                zk,
                expect_zero_secret,
            ),
        res is Ok && (exists|i: int| 0 <= i < results.len() && (#[trigger] results[i]) is Err) ==> {
            let vs = only_checks(pending_checks(dealing_list(dealings), cfg, pki, zk));
            exists|j: int| #[trigger] lucky_weight(*zk.gens, vs, batch_weights(vs), j)
        },
{
    let ds = dealing_list(dealings);
    let ps = pending_checks(ds, cfg, pki, zk);
    let vs = only_checks(ps);
    let gens = *zk.gens;
    if !none_fails(ds, cfg, pki, zk, expect_zero_secret) {
        let e = res->Err_0;
        let i = choose|i: int| #[trigger]
            first_failure(ds, cfg, pki, zk, expect_zero_secret, i) && collect_error(
                ds[i],
                cfg,
                pki,
                zk,
                expect_zero_secret,
                e,
            );
        lemma_failing_dealing(ds[i], cfg, pki, zk, expect_zero_secret, results[i]);
        assert(results[i] is Err && names(e, ds[i], cfg, pki, zk, expect_zero_secret));
    } else {
        assert forall|k: int| 0 <= k < ps.len() implies exists|i: int|
            0 <= i < ds.len() && ds[i].dealer == (#[trigger] ps[k]).0 && ((#[trigger] results[i]) is Ok
                <==> check_vanishes(gens, ps[k].1)) && (results[i] is Ok <==> check_passes(
                gens,
                ps[k].1,
            )) by {
            let i = lemma_pending_source(ds, cfg, pki, zk, k);
            assert(!collect_fails(ds[i], cfg, pki, zk, expect_zero_secret));
            assert(gouts_in_group(ps[k].1.points));
            lemma_pending_dealing(
                ds[i],
                cfg,
                pki,
                zk,
                expect_zero_secret,
                results[i],
                ps[k].1,
            );
            assert(results[i] is Ok <==> check_vanishes(gens, ps[k].1));
        }
        if res is Err {
            let k = lemma_offender(gens, ps);
            let i = choose|i: int|
                0 <= i < ds.len() && ds[i].dealer == ps[k].0 && ((#[trigger] results[i]) is Ok
                    <==> check_vanishes(gens, ps[k].1)) && (results[i] is Ok <==> check_passes(
                    gens,
                    ps[k].1,
                ));
            assert(results[i] is Err);
            assert(names(res->Err_0, ds[i], cfg, pki, zk, expect_zero_secret));
        } else if exists|i: int| 0 <= i < results.len() && (#[trigger] results[i]) is Err {
            let i = choose|i: int| 0 <= i < results.len() && (#[trigger] results[i]) is Err;
            assert(!collect_fails(ds[i], cfg, pki, zk, expect_zero_secret));
            assert(dealing_verified(ds[i], cfg, pki, zk, expect_zero_secret, results[i]));
            let k = lemma_pending_entry(ds, cfg, pki, zk, i);
            assert(gouts_in_group(ps[k].1.points));
            lemma_pending_dealing(ds[i], cfg, pki, zk, expect_zero_secret, results[i], ps[k].1);
            assert forall|j: int| 0 <= j < vs.len() implies check_fits(gens, #[trigger] vs[j]) by {
                assert(vs[j] == ps[j].1);
            }
            assert(vs[k] == ps[k].1);
            law_passing_batch_with_a_bad_check_is_lucky(gens, vs, batch_weights(vs), k);
        }
    }
}

/// Everyone comes to the same verdict on a batch.
pub proof fn law_batch_verdict_is_the_same_for_all(
    dealings: Map<u32, Dealing>,
    cfg: DkgConfig,
    pki: Map<u32, GinAffine>,
    zk: ZkParams,
    expect_zero_secret: bool,
    res1: GoldenResult<()>,
    res2: GoldenResult<()>,
)
    requires
        dealings_verified(dealings, cfg, pki, zk, expect_zero_secret, res1),
        dealings_verified(dealings, cfg, pki, zk, expect_zero_secret, res2),
    ensures
        res1 is Ok <==> res2 is Ok,
{
}

/// Two entries of the checks come from two dealings.
proof fn lemma_pending_sources(
    ds: Seq<Dealing>,
    cfg: DkgConfig,
    pki: Map<u32, GinAffine>,
    zk: ZkParams,
    k1: int,
    k2: int,
) -> (i: (int, int))
    requires
        0 <= k1 < k2 < pending_checks(ds, cfg, pki, zk).len(),
    ensures
        0 <= i.0 < i.1 < ds.len(),
        dealing_outcome(ds[i.0], cfg, pki, zk) == Outcome::Pending(
            pending_checks(ds, cfg, pki, zk)[k1].1,
        ),
        dealing_outcome(ds[i.1], cfg, pki, zk) == Outcome::Pending(
            pending_checks(ds, cfg, pki, zk)[k2].1,
        ),
    decreases ds.len(),
{
    let rest = pending_checks(ds.drop_last(), cfg, pki, zk);
    if k2 < rest.len() {
        let i = lemma_pending_sources(ds.drop_last(), cfg, pki, zk, k1, k2);
        assert(ds.drop_last()[i.0] == ds[i.0] && ds.drop_last()[i.1] == ds[i.1]);
        i
    } else {
        let i = lemma_pending_source(ds.drop_last(), cfg, pki, zk, k1);
        assert(ds.drop_last()[i] == ds[i]);
        (i, ds.len() - 1)
    }
}

/// The dealings of a session, in the order in which they are verified, are all of them, each
/// once, by ascending key.
pub proof fn law_every_dealing_is_listed(dealings: Map<u32, Dealing>)
    requires
        dealings.dom().finite(),
    ensures
        dealing_list(dealings).len() == dealings.dom().len(),
        forall|k: u32| #[trigger]
            dealings.contains_key(k) ==> exists|i: int|
                0 <= i < dealing_list(dealings).len() && #[trigger] dealing_list(dealings)[i]
                    == dealings[k] && ordered(dealings.dom())[i] == k,
        forall|i: int|
            0 <= i < dealing_list(dealings).len() ==> dealings.contains_key(
                #[trigger] ordered(dealings.dom())[i],
            ) && dealing_list(dealings)[i] == dealings[ordered(dealings.dom())[i]],
        forall|i: int, j: int|
            0 <= i < j < dealing_list(dealings).len() ==> #[trigger] ordered(dealings.dom())[i]
                < #[trigger] ordered(dealings.dom())[j],
{
    let ids = ordered(dealings.dom());
    let ds = dealing_list(dealings);
    lemma_ordered_lists(dealings.dom());
    assert forall|i: int| 0 <= i < ds.len() implies dealings.contains_key(#[trigger] ids[i])
        && ds[i] == dealings[ids[i]] by {
        assert(ids.contains(ids[i]));
        assert(dealings.dom().contains(ids[i]));
    }
    assert forall|k: u32| #[trigger] dealings.contains_key(k) implies exists|i: int|
        0 <= i < ds.len() && #[trigger] ds[i] == dealings[k] && ids[i] == k by {
        assert(dealings.dom().contains(k));
        assert(ids.contains(k));
        let i = choose|i: int| 0 <= i < ids.len() && ids[i] == k;
        assert(ds[i] == dealings[k]);
    }
    assert(ids.to_set() =~= dealings.dom());
    assert(ids.no_duplicates());
    ids.unique_seq_to_set();
}

/// One bad dealing makes the whole session fail, and its dealer is named. Let every dealing
/// but that of key `bad` verify on its own, the points of the proofs be in the prime-order
/// group, and no challenge that is drawn as a weight be zero. Then the session does not
/// verify, wherever the bad dealing stands; and if only its proof is bad, the error is that
/// the proof of its dealer failed.
pub proof fn law_one_bad_dealing_is_named(
    dealings: Map<u32, Dealing>,
    cfg: DkgConfig,
    pki: Map<u32, GinAffine>,
    zk: ZkParams,
    expect_zero_secret: bool,
    res: GoldenResult<()>,
    results: Map<u32, GoldenResult<()>>,
    bad: u32,
)
    requires
        is_prime(fp_order()),
        params_ok(zk),
        dealings.dom().finite(),
        dealings_verified(dealings, cfg, pki, zk, expect_zero_secret, res),
        forall|k: u32| #[trigger]
            dealings.contains_key(k) ==> dealing_verified(
                dealings[k],
                cfg,
                pki,
                zk,
                expect_zero_secret,
                results[k],
            ),
        dealings.contains_key(bad),
        results[bad] is Err,
        forall|k: u32| #[trigger] dealings.contains_key(k) && k != bad ==> results[k] is Ok,
        ({
            let ps = pending_checks(dealing_list(dealings), cfg, pki, zk);
            &&& ps.len() > 0 ==> checks_in_group(*zk.gens, ps)
            &&& forall|i: nat| i < ps.len() ==> #[trigger] drawn_weight(only_checks(ps), i) != 0
        }),
    ensures
        res matches Err(e) && {
            &&& names(e, dealings[bad], cfg, pki, zk, expect_zero_secret)
            &&& structure_error(dealings[bad], cfg, pki, expect_zero_secret) is None
                && hashes_exist(cfg, dealings[bad]) ==> (e matches GoldenError::EvrfProofFailed {
                dealer,
                reason,
            } && dealer == dealings[bad].dealer)
        },
{
    let ds = dealing_list(dealings);
    let ids = ordered(dealings.dom());
    let ps = pending_checks(ds, cfg, pki, zk);
    let vs = only_checks(ps);
    let gens = *zk.gens;
    law_every_dealing_is_listed(dealings);
    let list = Seq::new(ds.len(), |i: int| results[ids[i]]);
    assert forall|i: int| 0 <= i < list.len() implies dealing_verified(
        ds[i],
        cfg,
        pki,
        zk,
        expect_zero_secret,
        #[trigger] list[i],
    ) by {
        assert(dealings.contains_key(ids[i]));
    }
    law_batch_verdict(dealings, cfg, pki, zk, expect_zero_secret, res, list);
    let b = choose|i: int| 0 <= i < ds.len() && #[trigger] ds[i] == dealings[bad] && ids[i] == bad;
    assert(list[b] is Err);
    assert forall|i: int| 0 <= i < list.len() && i != b implies (#[trigger] list[i]) is Ok by {
        assert(dealings.contains_key(ids[i]));
        if i < b {
            assert(ids[i] < ids[b]);
        } else {
            assert(ids[b] < ids[i]);
        }
    }
    if res is Ok {
        assert(none_fails(ds, cfg, pki, zk, expect_zero_secret));
        assert(!collect_fails(ds[b], cfg, pki, zk, expect_zero_secret));
        assert(dealing_verified(ds[b], cfg, pki, zk, expect_zero_secret, list[b]));
        let k = lemma_pending_entry(ds, cfg, pki, zk, b);
        assert(gouts_in_group(ps[k].1.points));
        lemma_pending_dealing(ds[b], cfg, pki, zk, expect_zero_secret, list[b], ps[k].1);
        assert forall|j: int| 0 <= j < vs.len() implies check_fits(gens, #[trigger] vs[j]) by {
            assert(vs[j] == ps[j].1);
        }
        assert forall|j: int| 0 <= j < vs.len() && j != k implies check_vanishes(
            gens,
            #[trigger] vs[j],
        ) by {
            let (k1, k2) = if j < k {
                (j, k)
            } else {
                (k, j)
            };
            let i = lemma_pending_sources(ds, cfg, pki, zk, k1, k2);
            assert(gouts_in_group(ps[j].1.points));
            assert(gouts_in_group(ps[k].1.points));
            assert(list[i.0] is Ok || list[i.1] is Ok);
            assert(!collect_fails(ds[i.0], cfg, pki, zk, expect_zero_secret));
            assert(!collect_fails(ds[i.1], cfg, pki, zk, expect_zero_secret));
            lemma_pending_dealing(
                ds[i.0],
                cfg,
                pki,
                zk,
                expect_zero_secret,
                list[i.0],
                ps[k1].1,
            );
            lemma_pending_dealing(
                ds[i.1],
                cfg,
                pki,
                zk,
                expect_zero_secret,
                list[i.1],
                ps[k2].1,
            );
        }
        assert(vs[k] == ps[k].1);
        assert(drawn_weight(vs, k as nat) != 0);
        law_batch_rejects_a_bad_check(gens, vs, k);
        assert(false);
    }
}

} // verus!
