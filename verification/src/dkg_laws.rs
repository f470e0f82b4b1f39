//! What holds of a session as a whole.
use crate::algebra::{
    cong, lemma_cong_add, lemma_cong_mod, lemma_cong_sub, lemma_mod_reduced, poly_eval,
};
use crate::curves::{
    gin_in_group, gin_is_pow, gin_log, gout_identity, gout_in_group, gout_is_pow, gout_pow, gouts,
    gouts_in_group, lemma_gin_log, lemma_gout_eq, lemma_gout_log, Fp, GinAffine, GinPoint,
};
use crate::dealer::{encrypts, verifies_in_exponents};
use crate::dkg::{
    all_commit, ciphertext_matches, dealing_inputs, dealing_list, dealing_verified, dealt_poly,
    first_recipient_error, joint_coeff, joint_value, keys_of_joint_polynomial, lemma_joint_value,
    lemma_poly_at_zero, lemma_recipients_ok, output_consistent, output_is, recipient_error,
    recipient_ids, shares_valid, Dealing, DkgConfig, DkgOutput, ShareCiphertext,
};
use crate::errors::GoldenResult;
use crate::evrf::{law_pad_is_symmetric, pad_made, EvrfWitness, PadOutput};
use crate::field::{fp_order, lemma_fp_order, lemma_fp_range};
use crate::hash_to_curve::{h1_point, h2_point};
use crate::maps::{lemma_ordered_lists, ordered};
use crate::shamir::shares_of;
use crate::zk::evrf_proof::{circuit_binds, committed_vars, evrf_circuit, input_bases, ZkParams};
use crate::zk::evrf_circuit::peer_keys;
use crate::zk::r1cs::{satisfied, Values};
use crate::zk::sound::{law_witness_pad, pad_of, pads_on};
use vstd::prelude::*;

verus! {

/// What an honest dealer broadcasts is accepted by everyone.
pub proof fn law_honest_dealing_verifies(
    d: Dealing,
    cfg: DkgConfig,
    pki: Map<u32, GinAffine>,
    zk: ZkParams,
    expect_zero_secret: bool,
    res: GoldenResult<()>,
)
    requires
        verifies_in_exponents(d, cfg, pki, zk, expect_zero_secret),
        dealing_verified(d, cfg, pki, zk, expect_zero_secret, res),
    ensures
        res is Ok,
{
}

/// A dealing that verifies commits to a polynomial with `t` coefficients by points of
/// the prime-order group, and holds for every registered party but the dealer a
/// ciphertext of that polynomial's value.
pub proof fn law_verified_dealing_is_consistent(
    d: Dealing,
    cfg: DkgConfig,
    pki: Map<u32, GinAffine>,
    zk: ZkParams,
    expect_zero_secret: bool,
    res: GoldenResult<()>,
)
    requires
        dealing_verified(d, cfg, pki, zk, expect_zero_secret, res),
        res is Ok,
        pki.dom().finite(),
    ensures
        d.commitment@.len() == cfg.t,
        gouts_in_group(gouts(d.commitment@)),
        pki.contains_key(d.dealer),
        forall|k: u32| #[trigger]
            pki.contains_key(k) && k != d.dealer ==> d.ciphertexts@.contains_key(k)
                && gout_in_group(d.ciphertexts@[k].r_commit@) && ciphertext_matches(d, k),
        expect_zero_secret ==> d.commitment@[0]@ == gout_identity(),
{
    let ks = ordered(pki.dom());
    lemma_ordered_lists(pki.dom());
    assert(first_recipient_error(d, ks) is None);
    lemma_recipients_ok(d, ks);
    assert forall|k: u32| #[trigger] pki.contains_key(k) && k != d.dealer implies
        d.ciphertexts@.contains_key(k) && gout_in_group(d.ciphertexts@[k].r_commit@)
        && ciphertext_matches(d, k) by {
        assert(pki.dom().contains(k));
        let i = choose|i: int| 0 <= i < ks.len() && ks[i] == k;
        assert(recipient_error(d, ks[i]) is None);
    }
}

/// Of a session whose dealings have all been verified under the dealer's id, what
/// [`crate::dkg::complete`] asks for holds: all dealings commit to polynomials with
/// `t` coefficients, and the ciphertexts for `me` hold their values.
pub proof fn law_verified_session_is_valid(
    dealings: Map<u32, Dealing>,
    cfg: DkgConfig,
    pki: Map<u32, GinAffine>,
    zk: ZkParams,
    me: u32,
    own: int,
    results: Map<u32, GoldenResult<()>>,
)
    requires
        dealings.dom().finite(),
        pki.dom().finite(),
        pki.contains_key(me),
        own == poly_eval(dealt_poly(dealings[me]), me as int) % fp_order(),
        forall|j: u32| #[trigger]
            dealings.contains_key(j) ==> dealings[j].dealer == j && results[j] is Ok
                && dealing_verified(dealings[j], cfg, pki, zk, false, results[j]),
    ensures
        all_commit(dealing_list(dealings), cfg.t as nat),
        shares_valid(dealings, me, own),
{
    let ids = ordered(dealings.dom());
    let ds = dealing_list(dealings);
    lemma_ordered_lists(dealings.dom());
    assert forall|i: int| 0 <= i < ds.len() implies (#[trigger] ds[i]).commitment@.len() == cfg.t
        && gouts_in_group(gouts(ds[i].commitment@)) by {
        let j = ids[i];
        assert(ids.contains(j));
        assert(dealings.dom().contains(j));
        assert(dealings.contains_key(j));
        law_verified_dealing_is_consistent(dealings[j], cfg, pki, zk, false, results[j]);
    }
    assert forall|j: u32| #[trigger] dealings.contains_key(j) && j != me implies ciphertext_matches(
        dealings[j],
        me,
    ) by {
        law_verified_dealing_is_consistent(dealings[j], cfg, pki, zk, false, results[j]);
    }
}

/// A party whose share is the value of the joint polynomial has an output that is
/// consistent: `g_out^{sk_i} = PK_i`.
pub proof fn law_completed_output_is_consistent(
    dealings: Map<u32, Dealing>,
    pki: Map<u32, GinAffine>,
    me: u32,
    out: DkgOutput,
)
    requires
        pki.contains_key(me),
        out.public_key_shares@.dom() == pki.dom(),
        keys_of_joint_polynomial(dealings, pki, out),
        out.secret_share@ == joint_value(dealing_list(dealings), me as int) % fp_order(),
    ensures
        output_consistent(out, me),
{
    assert(pki.dom().contains(me));
    assert(gout_is_pow(
        out.public_key_shares@[me]@,
        joint_value(dealing_list(dealings), me as int) % fp_order(),
    ));
}

/// All parties of a session come to the same public key and the same public shares.
pub proof fn law_parties_agree(
    dealings: Map<u32, Dealing>,
    cfg: DkgConfig,
    pki: Map<u32, GinAffine>,
    me1: u32,
    sk1: int,
    own1: int,
    out1: DkgOutput,
    me2: u32,
    sk2: int,
    own2: int,
    out2: DkgOutput,
)
    requires
        output_is(dealings, me1, sk1, cfg, pki, own1, out1),
        output_is(dealings, me2, sk2, cfg, pki, own2, out2),
    ensures
        out1.public_key@ == out2.public_key@,
        out1.public_key_shares@.dom() == out2.public_key_shares@.dom(),
        forall|l: u32|
            pki.contains_key(l) ==> (#[trigger] out1.public_key_shares@[l])@
                == out2.public_key_shares@[l]@,
{
    assert forall|l: u32| pki.contains_key(l) implies (#[trigger] out1.public_key_shares@[l])@
        == out2.public_key_shares@[l]@ by {
        assert(out2.public_key_shares@[l] == out2.public_key_shares@[l]);
    }
}

/// The secret shares of a session are shares of the joint polynomial, which has `t`
/// coefficients, and whose value at zero is the exponent of the public key: any `t`
/// of them give the secret key back.
pub proof fn law_secret_shares_are_of_the_joint_polynomial(
    dealings: Map<u32, Dealing>,
    pki: Map<u32, GinAffine>,
    t: nat,
    shares: Seq<(u32, Fp)>,
    out: DkgOutput,
)
    requires
        all_commit(dealing_list(dealings), t),
        keys_of_joint_polynomial(dealings, pki, out),
        forall|i: int|
            0 <= i < shares.len() ==> (#[trigger] shares[i]).1@ == joint_value(
                dealing_list(dealings),
                shares[i].0 as int,
            ) % fp_order(),
    ensures
        ({
            let f = Seq::new(t, |m: int| joint_coeff(dealing_list(dealings), m));
            shares_of(shares, f) && gout_pow(poly_eval(f, 0) % fp_order()) == out.public_key@
        }),
{
    let ds = dealing_list(dealings);
    let f = Seq::new(t, |m: int| joint_coeff(ds, m));
    assert forall|i: int| 0 <= i < shares.len() implies (#[trigger] shares[i]).1@ == poly_eval(
        f,
        shares[i].0 as int,
    ) % fp_order() by {
        lemma_joint_value(ds, t, shares[i].0 as int);
    }
    lemma_joint_value(ds, t, 0);
}

/// The dealings of a refresh, which share zero, have a joint polynomial that is zero at
/// zero.
pub proof fn law_refresh_shares_zero(ds: Seq<Dealing>, t: nat)
    requires
        t >= 1,
        all_commit(ds, t),
        forall|i: int|
            0 <= i < ds.len() ==> (#[trigger] ds[i]).commitment@[0]@ == gout_identity(),
    ensures
        joint_value(ds, 0) % fp_order() == 0,
    decreases ds.len(),
{
    let m = fp_order();
    lemma_fp_order();
    if ds.len() == 0 {
        lemma_mod_reduced(0, m);
    } else {
        let rest = ds.drop_last();
        assert forall|i: int| 0 <= i < rest.len() implies (#[trigger] rest[i]).commitment@.len()
            == t && gouts_in_group(gouts(rest[i].commitment@)) && rest[i].commitment@[0]@
            == gout_identity() by {
            assert(rest[i] == ds[i]);
        }
        law_refresh_shares_zero(rest, t);
        let d = ds.last();
        assert(d == ds[ds.len() - 1]);
        let c = gouts(d.commitment@);
        assert(c[0] == d.commitment@[0]@);
        assert(gout_in_group(c[0]));
        lemma_gout_eq(c[0], c[0]);
        lemma_poly_at_zero(dealt_poly(d));
    }
}

/// A refresh keeps the secret and the public key: adding, at every party, the share of
/// the refresh to the old one gives shares of a polynomial with the old value at
/// zero, and the public key of the refresh is the neutral element.
pub proof fn law_refresh_keeps_the_secret(
    old_session: Map<u32, Dealing>,
    refresh: Map<u32, Dealing>,
    pki: Map<u32, GinAffine>,
    t: nat,
    me: u32,
    old_out: DkgOutput,
    new_out: DkgOutput,
    sum: Fp,
)
    requires
        t >= 1,
        all_commit(dealing_list(refresh), t),
        forall|i: int|
            0 <= i < dealing_list(refresh).len() ==> (#[trigger] dealing_list(
                refresh,
            )[i]).commitment@[0]@ == gout_identity(),
        keys_of_joint_polynomial(refresh, pki, new_out),
        old_out.secret_share@ == joint_value(dealing_list(old_session), me as int) % fp_order(),
        new_out.secret_share@ == joint_value(dealing_list(refresh), me as int) % fp_order(),
        sum@ == (old_out.secret_share@ + new_out.secret_share@) % fp_order(),
    ensures
        sum@ == (joint_value(dealing_list(old_session), me as int) + joint_value(
            dealing_list(refresh),
            me as int,
        )) % fp_order(),
        cong(
            joint_value(dealing_list(old_session), 0) + joint_value(dealing_list(refresh), 0),
            joint_value(dealing_list(old_session), 0),
            fp_order(),
        ),
        new_out.public_key@ == gout_identity(),
{
    let m = fp_order();
    lemma_fp_order();
    let (a, b) = (dealing_list(old_session), dealing_list(refresh));
    law_refresh_shares_zero(b, t);
    lemma_cong_mod(joint_value(a, me as int), m);
    lemma_cong_mod(joint_value(b, me as int), m);
    lemma_cong_add(
        old_out.secret_share@,
        joint_value(a, me as int),
        new_out.secret_share@,
        joint_value(b, me as int),
        m,
    );
    lemma_mod_reduced(0, m);
    lemma_cong_add(joint_value(a, 0), joint_value(a, 0), joint_value(b, 0), 0, m);
}

/// What an honest dealer encrypts, the recipient decrypts: the recipient's pad
/// commitment is the one of the ciphertext, and taking the pad away gives the share.
pub proof fn law_recipient_decrypts(
    sk_dealer: int,
    pk_dealer: GinPoint,
    sk_me: int,
    pk_me: GinPoint,
    cfg: DkgConfig,
    msg: Seq<u8>,
    x: int,
    ct: ShareCiphertext,
    dealer_wit: EvrfWitness,
    pad: PadOutput,
    my_wit: EvrfWitness,
)
    requires
        gin_is_pow(pk_dealer, sk_dealer),
        gin_is_pow(pk_me, sk_me),
        0 <= x < fp_order(),
        encrypts(sk_dealer, pk_me, cfg, msg, x, ct, dealer_wit),
        pad_made(
            sk_me,
            pk_dealer,
            h1_point(cfg.sid@, msg)->Some_0,
            h2_point(cfg.sid@, msg)->Some_0,
            cfg.beta@,
            pad,
            my_wit,
        ),
    ensures
        ct.r_commit@ == pad.r_commit@,
        (ct.z@ - pad.r@) % fp_order() == x,
{
    let m = fp_order();
    lemma_fp_order();
    let dealer_pad = PadOutput { r: dealer_wit.r, r_commit: ct.r_commit };
    law_pad_is_symmetric(
        sk_dealer,
        pk_dealer,
        sk_me,
        pk_me,
        h1_point(cfg.sid@, msg)->Some_0,
        h2_point(cfg.sid@, msg)->Some_0,
        cfg.beta@,
        dealer_pad,
        dealer_wit,
        pad,
        my_wit,
    );
    let r = pad.r@;
    lemma_cong_mod(r + x, m);
    lemma_cong_sub(ct.z@, r + x, r, r, m);
    lemma_mod_reduced(x, m);
}

/// A dealing that is proved can be decrypted. Let values satisfy the circuit of the
/// dealing, with the pad commitments as commitments to its committed values. Then the
/// pad that the recipient derives is the one that the dealer has used, and taking it
/// away gives the share that the dealing commits to.
pub proof fn law_proved_dealing_decrypts(
    d: Dealing,
    cfg: DkgConfig,
    pki: Map<u32, GinAffine>,
    lambda: nat,
    w: Values,
    i: usize,
    sk_me: int,
    pad: PadOutput,
    my_wit: EvrfWitness,
)
    requires
        circuit_binds(dealing_inputs(d, cfg, pki), lambda),
        satisfied(evrf_circuit(dealing_inputs(d, cfg, pki), lambda), w),
        i < recipient_ids(d.dealer, pki).len(),
        gin_in_group(h1_point(cfg.sid@, d.msg@)->Some_0),
        gin_in_group(h2_point(cfg.sid@, d.msg@)->Some_0),
        ({
            let k = recipient_ids(d.dealer, pki)[i as int];
            &&& gin_is_pow(pki[k]@, sk_me)
            &&& gout_is_pow(d.ciphertexts@[k].r_commit@, w.v[i as int] % fp_order())
            &&& ciphertext_matches(d, k)
        }),
        pad_made(
            sk_me,
            pki[d.dealer]@,
            h1_point(cfg.sid@, d.msg@)->Some_0,
            h2_point(cfg.sid@, d.msg@)->Some_0,
            cfg.beta@,
            pad,
            my_wit,
        ),
    ensures
        ({
            let k = recipient_ids(d.dealer, pki)[i as int];
            &&& pad.r_commit@ == d.ciphertexts@[k].r_commit@
            &&& (d.ciphertexts@[k].z@ - pad.r@) % fp_order() == poly_eval(dealt_poly(d), k as int)
                % fp_order()
        }),
{
    reveal(circuit_binds);
    let m = fp_order();
    lemma_fp_order();
    let pubs = dealing_inputs(d, cfg, pki);
    let bases = input_bases(pubs);
    let k = recipient_ids(d.dealer, pki)[i as int];
    let ct = d.ciphertexts@[k];
    let keys = peer_keys(pubs.peers);
    assert(pads_on(w, pubs.pk1, keys, bases, committed_vars(pubs.peers.len())));
    lemma_gin_log(pki[k]@, sk_me);
    assert(keys[i as int] == pki[k]@);
    let sk1 = gin_log(pubs.pk1);
    assert(cong(w.v[i as int], pad_of(sk1, pki[k]@, bases), m));
    law_witness_pad(sk_me, pubs.pk1, bases, my_wit);
    assert(sk1 * sk_me == sk_me * sk1) by (nonlinear_arith);
    assert(pad.r@ == pad_of(sk1, pki[k]@, bases));
    lemma_fp_range(pad.r);
    lemma_mod_reduced(pad.r@, m);
    assert(w.v[i as int] % m == pad.r@);
    lemma_gout_log(ct.r_commit@, pad.r@);
    // z − r
    let v = poly_eval(dealt_poly(d), k as int);
    lemma_cong_mod(v + pad.r@, m);
    lemma_cong_sub(ct.z@, v + pad.r@, pad.r@, pad.r@, m);
}

} // verus!
