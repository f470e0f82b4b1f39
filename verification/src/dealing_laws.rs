//! When a dealing is in order, what an error says of it, and what an honest dealer makes.
use crate::algebra::poly_eval;
use crate::curves::{
    gin_in_group, gin_is_pow, gout_identity, gout_in_group, gout_is_pow, gout_log, gouts,
    gouts_in_group, GinAffine,
};
use crate::dealer::{
    deal_result, dealable_to, dealer_inputs, dealt, dealt_ids, honest_session, lemma_next_index,
    lemma_no_recipient_error, lemma_none_unexpected, undealable, verifies_in_exponents,
};
use crate::dkg::{
    ciphertext_matches, dealing_inputs, dealing_verified, dealt_poly, first_recipient_error,
    first_unexpected, lemma_recipients_ok, recipient_error, structure_error, Dealing,
    DealingPrivate, DkgConfig, ShareCiphertext,
};
use crate::errors::{GoldenError, GoldenResult};
use crate::evrf::{law_two_keys_have_one_pad, EvrfWitness};
use crate::field::fp_order;
use crate::hash_to_curve::{h1_point, h2_point};
use crate::maps::{first_indices, lemma_ordered_lists, lemma_others, ordered, others};
use crate::schnorr::RegisteredKey;
use crate::session_laws::honest_parties;
use crate::zk::bp_protocol::pad_len;
use crate::zk::evrf_circuit::{digits, gates_estimate, peer_keys, peer_usable, EvrfPeerInputs};
use crate::zk::evrf_proof::{
    accepted, full_refused, input_bases, inputs_usable, lemma_gates_fit, prover_secret, ZkParams,
};
use crate::zk::gadgets::offset_hash;
use vstd::prelude::*;

verus! {

// ─── the structure of a dealing ─────────────────────────────────────────────

/// The dealing is in order: it is of the session, commits to `t` coefficients by points of
/// the prime-order group, shares zero where that is asked for, and holds, for every
/// registered party but the dealer and for no one else, a pad commitment of the prime-order
/// group and a ciphertext `z_k = f(k) + r_k`.
pub open spec fn in_order(
    d: Dealing,
    cfg: DkgConfig,
    pki: Map<u32, GinAffine>,
    expect_zero_secret: bool,
) -> bool {
    &&& d.sid@ == cfg.sid@
    &&& d.commitment@.len() == cfg.t
    &&& expect_zero_secret ==> d.commitment@[0]@ == gout_identity()
    &&& forall|m: int| 0 <= m < d.commitment@.len() ==> gout_in_group((#[trigger] d.commitment@[m])@)
    &&& pki.contains_key(d.dealer)
    &&& forall|k: u32| #[trigger]
        d.ciphertexts@.contains_key(k) <==> pki.contains_key(k) && k != d.dealer
    &&& forall|k: u32| #[trigger]
        d.ciphertexts@.contains_key(k) ==> {
            let ct = d.ciphertexts@[k];
            &&& gout_in_group(ct.r_commit@)
            &&& ct.z@ == (poly_eval(
                Seq::new(d.commitment@.len(), |m: int| gout_log(d.commitment@[m]@)),
                k as int,
            ) + gout_log(ct.r_commit@)) % fp_order()
        }
}

proof fn lemma_dealt_logs(d: Dealing)
    ensures
        dealt_poly(d) == Seq::new(d.commitment@.len(), |m: int| gout_log(d.commitment@[m]@)),
        gouts_in_group(gouts(d.commitment@)) <==> forall|m: int|
            0 <= m < d.commitment@.len() ==> gout_in_group((#[trigger] d.commitment@[m])@),
{
    let c = gouts(d.commitment@);
    assert(dealt_poly(d) =~= Seq::new(
        d.commitment@.len(),
        |m: int| gout_log(d.commitment@[m]@),
    ));
    if gouts_in_group(c) {
        assert forall|m: int| 0 <= m < d.commitment@.len() implies gout_in_group(
            (#[trigger] d.commitment@[m])@,
        ) by {
            assert(gout_in_group(c[m]));
        }
    }
}

proof fn lemma_none_unexpected_rev(dealer: u32, ks: Seq<u32>, pki: Map<u32, GinAffine>)
    requires
        first_unexpected(dealer, ks, pki) is None,
    ensures
        forall|i: int|
            0 <= i < ks.len() ==> #[trigger] ks[i] != dealer && pki.contains_key(ks[i]),
    decreases ks.len(),
{
    if ks.len() > 0 {
        let rest = ks.drop_first();
        lemma_none_unexpected_rev(dealer, rest, pki);
        assert forall|i: int| 0 <= i < ks.len() implies #[trigger] ks[i] != dealer
            && pki.contains_key(ks[i]) by {
            if i > 0 {
                assert(rest[i - 1] == ks[i]);
            }
        }
    }
}

/// Nothing is found wrong with the structure of a dealing exactly where it is in order.
pub proof fn law_structure_is_accepted_if_in_order(
    d: Dealing,
    cfg: DkgConfig,
    pki: Map<u32, GinAffine>,
    expect_zero_secret: bool,
)
    requires
        pki.dom().finite(),
        d.ciphertexts@.dom().finite(),
    ensures
        structure_error(d, cfg, pki, expect_zero_secret) is None <==> in_order(
            d,
            cfg,
            pki,
            expect_zero_secret,
        ),
{
    let (ks, us) = (ordered(pki.dom()), ordered(d.ciphertexts@.dom()));
    lemma_ordered_lists(pki.dom());
    lemma_ordered_lists(d.ciphertexts@.dom());
    lemma_dealt_logs(d);
    if structure_error(d, cfg, pki, expect_zero_secret) is None {
        lemma_recipients_ok(d, ks);
        lemma_none_unexpected_rev(d.dealer, us, pki);
        assert forall|k: u32| #[trigger] d.ciphertexts@.contains_key(k) <==> pki.contains_key(k) && k
            != d.dealer by {
            if d.ciphertexts@.contains_key(k) {
                assert(d.ciphertexts@.dom().contains(k));
                assert(us.contains(k));
                let i = choose|i: int| 0 <= i < us.len() && us[i] == k;
                assert(us[i] != d.dealer && pki.contains_key(us[i]));
            }
            if pki.contains_key(k) && k != d.dealer {
                assert(pki.dom().contains(k));
                assert(ks.contains(k));
                let i = choose|i: int| 0 <= i < ks.len() && ks[i] == k;
                assert(recipient_error(d, ks[i]) is None);
            }
        }
        assert forall|k: u32| #[trigger] d.ciphertexts@.contains_key(k) implies gout_in_group(
            d.ciphertexts@[k].r_commit@,
        ) && ciphertext_matches(d, k) by {
            assert(pki.contains_key(k) && k != d.dealer);
            assert(pki.dom().contains(k));
            assert(ks.contains(k));
            let i = choose|i: int| 0 <= i < ks.len() && ks[i] == k;
            assert(recipient_error(d, ks[i]) is None);
        }
    }
    if in_order(d, cfg, pki, expect_zero_secret) {
        assert forall|i: int| 0 <= i < ks.len() implies recipient_error(
            d,
            #[trigger] ks[i],
        ) is None by {
            let k = ks[i];
            assert(ks.contains(k));
            assert(pki.dom().contains(k));
            if k != d.dealer {
                assert(d.ciphertexts@.contains_key(k));
                assert(ciphertext_matches(d, k));
            }
        }
        lemma_no_recipient_error(d, ks);
        assert forall|i: int| 0 <= i < us.len() implies #[trigger] us[i] != d.dealer
            && pki.contains_key(us[i]) by {
            assert(us.contains(us[i]));
            assert(d.ciphertexts@.dom().contains(us[i]));
            assert(d.ciphertexts@.contains_key(us[i]));
        }
        lemma_none_unexpected(d.dealer, us, pki);
    }
}

/// What an error says of a dealing.
pub open spec fn error_is_true(
    e: GoldenError,
    d: Dealing,
    cfg: DkgConfig,
    pki: Map<u32, GinAffine>,
    expect_zero_secret: bool,
) -> bool {
    match e {
        GoldenError::SessionMismatch { dealer } => dealer == d.dealer && d.sid@ != cfg.sid@,
        GoldenError::WrongCommitmentLength { dealer, got, expected } => {
            &&& dealer == d.dealer
            &&& got == d.commitment@.len() as usize
            &&& expected == cfg.t
            &&& d.commitment@.len() != cfg.t
        },
        GoldenError::NonZeroRefreshSecret { dealer } => dealer == d.dealer && expect_zero_secret
            && d.commitment@[0]@ != gout_identity(),
        GoldenError::ElementNotInSubgroup { dealer } => dealer == d.dealer && {
            ||| exists|m: int|
                0 <= m < d.commitment@.len() && !gout_in_group((#[trigger] d.commitment@[m])@)
            ||| exists|k: u32| #[trigger]
                d.ciphertexts@.contains_key(k) && pki.contains_key(k) && !gout_in_group(
                    d.ciphertexts@[k].r_commit@,
                )
        },
        GoldenError::PartyNotInPki { id } => id == d.dealer && !pki.contains_key(id),
        GoldenError::MissingCiphertext { dealer, recipient } => dealer == d.dealer
            && pki.contains_key(recipient) && recipient != dealer && !d.ciphertexts@.contains_key(
            recipient,
        ),
        GoldenError::CiphertextCheckFailed { dealer, recipient } => {
            &&& dealer == d.dealer
            &&& pki.contains_key(recipient)
            &&& d.ciphertexts@.contains_key(recipient)
            &&& d.ciphertexts@[recipient].z@ != (poly_eval(
                Seq::new(d.commitment@.len(), |m: int| gout_log(d.commitment@[m]@)),
                recipient as int,
            ) + gout_log(d.ciphertexts@[recipient].r_commit@)) % fp_order()
        },
        GoldenError::UnexpectedCiphertext { dealer, recipient } => dealer == d.dealer
            && d.ciphertexts@.contains_key(recipient) && (recipient == dealer
            || !pki.contains_key(recipient)),
        _ => false,
    }
}

proof fn lemma_recipient_error_source(d: Dealing, ks: Seq<u32>) -> (i: int)
    requires
        first_recipient_error(d, ks) is Some,
    ensures
        0 <= i < ks.len(),
        recipient_error(d, ks[i]) == first_recipient_error(d, ks),
    decreases ks.len(),
{
    if recipient_error(d, ks[0]) is Some {
        0
    } else {
        let i = lemma_recipient_error_source(d, ks.drop_first());
        assert(ks.drop_first()[i] == ks[i + 1]);
        i + 1
    }
}

proof fn lemma_unexpected_source(dealer: u32, ks: Seq<u32>, pki: Map<u32, GinAffine>) -> (i: int)
    requires
        first_unexpected(dealer, ks, pki) is Some,
    ensures
        0 <= i < ks.len(),
        ks[i] == dealer || !pki.contains_key(ks[i]),
        first_unexpected(dealer, ks, pki) == Some(
            GoldenError::UnexpectedCiphertext { dealer, recipient: ks[i] },
        ),
    decreases ks.len(),
{
    if ks[0] == dealer || !pki.contains_key(ks[0]) {
        0
    } else {
        let i = lemma_unexpected_source(dealer, ks.drop_first(), pki);
        assert(ks.drop_first()[i] == ks[i + 1]);
        i + 1
    }
}

/// The error that is found in the structure of a dealing is true of it.
pub proof fn law_structure_error_is_true(
    d: Dealing,
    cfg: DkgConfig,
    pki: Map<u32, GinAffine>,
    expect_zero_secret: bool,
)
    requires
        pki.dom().finite(),
        d.ciphertexts@.dom().finite(),
    ensures
        structure_error(d, cfg, pki, expect_zero_secret) matches Some(e) ==> error_is_true(
            e,
            d,
            cfg,
            pki,
            expect_zero_secret,
        ),
{
    let (ks, us) = (ordered(pki.dom()), ordered(d.ciphertexts@.dom()));
    lemma_ordered_lists(pki.dom());
    lemma_ordered_lists(d.ciphertexts@.dom());
    lemma_dealt_logs(d);
    if first_recipient_error(d, ks) is Some {
        let i = lemma_recipient_error_source(d, ks);
        assert(ks.contains(ks[i]));
        assert(pki.dom().contains(ks[i]));
        assert(pki.contains_key(ks[i]));
    }
    if first_unexpected(d.dealer, us, pki) is Some {
        let i = lemma_unexpected_source(d.dealer, us, pki);
        assert(us.contains(us[i]));
        assert(d.ciphertexts@.dom().contains(us[i]));
        assert(d.ciphertexts@.contains_key(us[i]));
    }
}

// ─── honest dealers ─────────────────────────────────────────────────────────

/// There are as many recipients as there are other parties.
proof fn lemma_recipient_count(k: u32, me: u32)
    ensures
        others(first_indices(k as nat), me).len() == if 1 <= me <= k {
            k - 1
        } else {
            k as int
        },
    decreases k,
{
    if k == 0 {
        assert(first_indices(0) =~= Seq::<u32>::empty());
    } else {
        lemma_recipient_count((k - 1) as u32, me);
        lemma_next_index((k - 1) as u32, me);
    }
}

/// An honest dealer succeeds, whatever the number of parties. With Schnorr proofs it always
/// does; with parameters for full proofs that cover all recipients, only a challenge that is
/// zero can stand in the way.
pub proof fn law_honest_dealer_succeeds(
    me: RegisteredKey,
    cfg: DkgConfig,
    pki: Map<u32, GinAffine>,
    sks: Map<u32, int>,
    zk: ZkParams,
    f: Seq<int>,
    msg: Seq<u8>,
    res: GoldenResult<(Dealing, DealingPrivate)>,
)
    requires
        honest_parties(cfg, pki, sks),
        1 <= me.id <= cfg.n,
        h1_point(cfg.sid@, msg) matches Some(h) && gin_in_group(h),
        h2_point(cfg.sid@, msg) matches Some(h) && gin_in_group(h),
        zk.mode is Full ==> {
            &&& offset_hash() is Some
            &&& cfg.n - 1 <= zk.max_peers
            &&& zk.gens.gens_capacity >= pad_len(
                gates_estimate(zk.lambda as nat, zk.max_peers as nat),
            )
        },
        deal_result(me, sks[me.id], cfg, pki, zk, f, msg, res),
    ensures
        zk.mode is InsecureQuick ==> res is Ok,
        zk.mode is Full ==> res is Ok || (res matches Err(GoldenError::Proof(s)) && s@
            == "zero challenge"@),
{
    let sk = sks[me.id];
    assert(pki.contains_key(me.id));
    assert(gin_is_pow(pki[me.id]@, sk));
    assert forall|l: u32| 1 <= l <= cfg.n && l != me.id implies !#[trigger] undealable(
        l,
        sk,
        cfg,
        pki,
        msg,
    ) by {
        assert(pki.contains_key(l));
        assert(gin_is_pow(pki[l]@, sks[l]));
        law_two_keys_have_one_pad(sk, pki[me.id]@, sks[l], pki[l]@, cfg.sid@, msg, cfg.beta@);
    }
    assert(dealable_to(cfg.n as int, me.id, sk, cfg, pki, msg));
    let (cts, wits) = choose|cts: Map<u32, ShareCiphertext>, wits: Seq<EvrfWitness>| #[trigger]
        dealt(me, sk, cfg, pki, zk, f, msg, cts, wits, res);
    assert(dealt(me, sk, cfg, pki, zk, f, msg, cts, wits, res));
    if zk.mode is Full && res is Err {
        let pubs = dealer_inputs(me, cfg, pki, msg, cts);
        let ids = dealt_ids(me.id, cfg);
        let secret = prover_secret(wits);
        lemma_recipient_count(cfg.n, me.id);
        lemma_next_index(cfg.n, me.id);
        lemma_gates_fit(zk.lambda as nat, pubs.peers.len(), zk.max_peers as nat);
        assert(inputs_usable(secret, pubs, zk.lambda as nat)) by {
            let keys = peer_keys(pubs.peers);
            assert forall|i: int| 0 <= i < keys.len() implies peer_usable(
                digits(secret, zk.lambda as nat),
                #[trigger] keys[i],
                input_bases(pubs),
                zk.lambda as nat,
            ) by {
                assert(ids.contains(ids[i]));
                assert(keys[i] == pki[ids[i]]@);
                assert(gin_is_pow(pki[ids[i]]@, sks[ids[i]]));
            }
        }
        assert(full_refused(zk, pubs, secret) is None);
    }
}

/// What an honest dealer broadcasts is accepted by everyone, whatever the number of parties.
/// The second condition is what [`crate::dealer::create_dealing`] states of its result.
pub proof fn law_honest_dealing_is_accepted(
    me: RegisteredKey,
    cfg: DkgConfig,
    pki: Map<u32, GinAffine>,
    sks: Map<u32, int>,
    zk: ZkParams,
    d: Dealing,
    verdict: GoldenResult<()>,
)
    requires
        honest_parties(cfg, pki, sks),
        1 <= me.id <= cfg.n,
        me.pk@ == pki[me.id]@,
        zk.mode is Full ==> zk.gens.in_group() && gout_is_pow(zk.gens.b@, 1) && zk.lambda >= 255,
        honest_session(me, sks[me.id], cfg, pki, zk) ==> verifies_in_exponents(
            d,
            cfg,
            pki,
            zk,
            false,
        ),
        dealing_verified(d, cfg, pki, zk, false, verdict),
    ensures
        verdict is Ok,
{
    assert(gin_is_pow(pki[me.id]@, sks[me.id]));
    assert(pki.contains_key(me.id));
    assert forall|k: u32| pki.contains_key(k) implies gin_in_group((#[trigger] pki[k])@) by {
        assert(gin_is_pow(pki[k]@, sks[k]));
    }
    assert(honest_session(me, sks[me.id], cfg, pki, zk));
}


// ─── what is proved of a dealing ────────────────────────────────────────────

/// Public inputs for one recipient are those of a registered party other than the dealer.
pub open spec fn is_of_recipient(peer: EvrfPeerInputs, d: Dealing, pki: Map<u32, GinAffine>) -> bool {
    exists|k: u32|
        #![trigger pki[k]]
        pki.contains_key(k) && k != d.dealer && peer.pk2 == pki[k] && peer.r_commit
            == d.ciphertexts@[k].r_commit
}

/// The proof of a dealing is about every registered party but the dealer: for each there is a
/// recipient among the public inputs, with that party's key and the pad commitment that it was
/// sent. The other inputs are the key of the dealer, the points that the session and the
/// message hash to, and the combiner of the session.
pub proof fn law_every_recipient_is_proved(
    d: Dealing,
    cfg: DkgConfig,
    pki: Map<u32, GinAffine>,
)
    requires
        pki.dom().finite(),
    ensures
        ({
            let pubs = dealing_inputs(d, cfg, pki);
            &&& pubs.pk1 == pki[d.dealer]@
            &&& Some(pubs.h1m) == h1_point(cfg.sid@, d.msg@) || h1_point(cfg.sid@, d.msg@) is None
            &&& Some(pubs.h2m) == h2_point(cfg.sid@, d.msg@) || h2_point(cfg.sid@, d.msg@) is None
            &&& pubs.beta == cfg.beta@
            &&& forall|k: u32| #[trigger]
                pki.contains_key(k) && k != d.dealer ==> exists|i: int|
                    0 <= i < pubs.peers.len() && (#[trigger] pubs.peers[i]).pk2 == pki[k]
                        && pubs.peers[i].r_commit == d.ciphertexts@[k].r_commit
            &&& forall|i: int|
                #![trigger pubs.peers[i]]
                0 <= i < pubs.peers.len() ==> is_of_recipient(pubs.peers[i], d, pki)
        }),
{
    let pubs = dealing_inputs(d, cfg, pki);
    let ks = ordered(pki.dom());
    let ids = others(ks, d.dealer);
    lemma_ordered_lists(pki.dom());
    lemma_others(ks, d.dealer);
    assert forall|k: u32| #[trigger] pki.contains_key(k) && k != d.dealer implies exists|i: int|
        0 <= i < pubs.peers.len() && (#[trigger] pubs.peers[i]).pk2 == pki[k]
            && pubs.peers[i].r_commit == d.ciphertexts@[k].r_commit by {
        assert(pki.dom().contains(k));
        assert(ids.contains(k));
        let i = choose|i: int| 0 <= i < ids.len() && ids[i] == k;
        assert(pubs.peers[i].pk2 == pki[k]);
    }
    assert forall|i: int|
        #![trigger pubs.peers[i]]
        0 <= i < pubs.peers.len() implies is_of_recipient(pubs.peers[i], d, pki) by {
        let k = ids[i];
        assert(ids.contains(k));
        assert(ks.contains(k));
        assert(pki.dom().contains(k));
        assert(pki.contains_key(k));
        assert(pubs.peers[i].pk2 == pki[k]);
    }
}

/// A dealing verifies exactly where it is in order, its message has its hashes, and its proof
/// is accepted; a bad proof is blamed on the dealer.
pub proof fn law_dealing_is_verified(
    d: Dealing,
    cfg: DkgConfig,
    pki: Map<u32, GinAffine>,
    zk: ZkParams,
    expect_zero_secret: bool,
    res: GoldenResult<()>,
)
    requires
        pki.dom().finite(),
        d.ciphertexts@.dom().finite(),
        dealing_verified(d, cfg, pki, zk, expect_zero_secret, res),
    ensures
        res is Ok <==> {
            &&& in_order(d, cfg, pki, expect_zero_secret)
            &&& h1_point(cfg.sid@, d.msg@) is Some
            &&& h2_point(cfg.sid@, d.msg@) is Some
            &&& accepted(zk, cfg.sid@, dealing_inputs(d, cfg, pki), d.proof)
        },
        res matches Err(e) ==> {
            ||| error_is_true(e, d, cfg, pki, expect_zero_secret)
            ||| e is Internal
            ||| e matches GoldenError::EvrfProofFailed { dealer, reason } && dealer == d.dealer
                && !accepted(zk, cfg.sid@, dealing_inputs(d, cfg, pki), d.proof)
        },
{
    law_structure_is_accepted_if_in_order(d, cfg, pki, expect_zero_secret);
    law_structure_error_is_true(d, cfg, pki, expect_zero_secret);
}

} // verus!
