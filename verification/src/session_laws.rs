//! What an honest session comes to, from the dealings to the keys.
use crate::algebra::{lemma_cong_add, lemma_cong_mod, lemma_sigma_eq, poly_eval, sigma};
use crate::curves::{
    gin_in_group, gin_is_pow, gin_log, gout_is_pow, gout_pow, gouts, gouts_in_group, lemma_gout_log,
    GinAffine,
};
use crate::dealer::{
    all_encrypted, deal_result, deals, dealt, dealt_ids, encrypts, lemma_next_index,
};
use crate::dkg::{
    all_commit, all_open, ciphertext_matches, completed, counted, dealer_pad, dealing_list,
    dealt_poly, joint_value, keys_of_joint_polynomial, lemma_poly_at_zero, opens, output_consistent,
    shares_valid, Dealing, DealingPrivate, DkgConfig, DkgOutput, ShareCiphertext,
};
use crate::dkg_batch_laws::law_every_dealing_is_listed;
use crate::dkg_laws::law_recipient_decrypts;
use crate::errors::{GoldenError, GoldenResult};
use crate::evrf::{has_pad, law_two_keys_have_one_pad, pad_made, pad_value, EvrfWitness, PadOutput};
use crate::field::{fp_order, lemma_fp_order, lemma_fp_range};
use crate::hash_to_curve::{h1_point, h2_point};
use crate::maps::{first_indices, lemma_first_indices, ordered};
use crate::schnorr::RegisteredKey;
use crate::vss::{commits_to, lemma_commits_logs};
use crate::zk::evrf_proof::ZkParams;
use crate::pad_laws::{law_pad_is_that_of_the_keys, pad_in_exponents};
use vstd::prelude::*;

verus! {

/// The parties `1, …, n`, and no others, are registered, each with the key of its secret key,
/// which is not zero.
pub open spec fn honest_parties(
    cfg: DkgConfig,
    pki: Map<u32, GinAffine>,
    sks: Map<u32, int>,
) -> bool {
    &&& cfg.t >= 1
    &&& forall|k: u32| #[trigger] pki.contains_key(k) <==> 1 <= k <= cfg.n
    &&& forall|k: u32|
        #![trigger pki[k]]
        1 <= k <= cfg.n ==> gin_is_pow(pki[k]@, sks[k]) && sks[k] != 0
}

/// Dealing `d` is what party `j` has made for the polynomial `f`, keeping `own`.
pub open spec fn honestly_dealt(
    j: u32,
    sk: int,
    cfg: DkgConfig,
    pki: Map<u32, GinAffine>,
    zk: ZkParams,
    f: Seq<int>,
    d: Dealing,
    own: DealingPrivate,
) -> bool {
    &&& f.len() == cfg.t
    &&& exists|me: RegisteredKey|
        me.id == j && #[trigger] deal_result(me, sk, cfg, pki, zk, f, d.msg@, Ok((d, own)))
}

/// What a recipient finds in the dealing of an honest dealer: a commitment to `f`, a
/// ciphertext of `f(me)`, and the hashes of the message.
proof fn lemma_dealt_to(
    j: u32,
    me: u32,
    sk: int,
    cfg: DkgConfig,
    pki: Map<u32, GinAffine>,
    zk: ZkParams,
    f: Seq<int>,
    d: Dealing,
    own: DealingPrivate,
) -> (wit: EvrfWitness)
    requires
        honestly_dealt(j, sk, cfg, pki, zk, f, d, own),
        1 <= me <= cfg.n,
    ensures
        commits_to(gouts(d.commitment@), f),
        own.own_share@ == poly_eval(f, j as int) % fp_order(),
        d.dealer == j,
        j != me ==> d.ciphertexts@.contains_key(me) && encrypts(
            sk,
            pki[me]@,
            cfg,
            d.msg@,
            poly_eval(f, me as int) % fp_order(),
            d.ciphertexts@[me],
            wit,
        ),
{
    let reg = choose|reg: RegisteredKey|
        reg.id == j && #[trigger] deal_result(reg, sk, cfg, pki, zk, f, d.msg@, Ok((d, own)));
    let res: GoldenResult<(Dealing, DealingPrivate)> = Ok((d, own));
    let (cts, wits) = choose|cts: Map<u32, ShareCiphertext>, wits: Seq<EvrfWitness>| #[trigger]
        dealt(reg, sk, cfg, pki, zk, f, d.msg@, cts, wits, res);
    assert(dealt(reg, sk, cfg, pki, zk, f, d.msg@, cts, wits, res));
    assert(deals(reg, cfg, f, d.msg@, cts, d, own));
    let ids = dealt_ids(j, cfg);
    lemma_next_index(cfg.n, j);
    if j != me {
        assert(ids.contains(me));
        let q = choose|q: int| 0 <= q < ids.len() && ids[q] == me;
        assert(all_encrypted(ids, sk, cfg, pki, f, d.msg@, cts, wits));
        assert(pki.contains_key(ids[q]));
        assert(cts.contains_key(me));
        wits[q]
    } else {
        wits[0]
    }
}

/// The ciphertext of an honest dealer matches the commitment.
proof fn lemma_matches(
    me: u32,
    sk: int,
    cfg: DkgConfig,
    pki: Map<u32, GinAffine>,
    f: Seq<int>,
    d: Dealing,
    wit: EvrfWitness,
)
    requires
        commits_to(gouts(d.commitment@), f),
        encrypts(
            sk,
            pki[me]@,
            cfg,
            d.msg@,
            poly_eval(f, me as int) % fp_order(),
            d.ciphertexts@[me],
            wit,
        ),
    ensures
        dealt_poly(d) == f,
        ciphertext_matches(d, me),
{
    let m = fp_order();
    lemma_fp_order();
    lemma_commits_logs(gouts(d.commitment@), f);
    let e = poly_eval(f, me as int);
    lemma_gout_log(d.ciphertexts@[me].r_commit@, wit.r@);
    lemma_cong_mod(e, m);
    lemma_cong_add(wit.r@, wit.r@, e % m, e, m);
}

/// The dealing of an honest dealer opens for an honest recipient: where the recipient has
/// derived its pad, the commitment of the ciphertext is that of the pad.
proof fn lemma_opens(
    j: u32,
    me: u32,
    cfg: DkgConfig,
    pki: Map<u32, GinAffine>,
    sks: Map<u32, int>,
    x: int,
    d: Dealing,
    wit: EvrfWitness,
    pad: PadOutput,
    my_wit: EvrfWitness,
)
    requires
        honest_parties(cfg, pki, sks),
        1 <= j <= cfg.n,
        1 <= me <= cfg.n,
        j != me,
        0 <= x < fp_order(),
        d.ciphertexts@.contains_key(me),
        encrypts(sks[j], pki[me]@, cfg, d.msg@, x, d.ciphertexts@[me], wit),
        pad_made(
            sks[me],
            pki[j]@,
            h1_point(cfg.sid@, d.msg@)->Some_0,
            h2_point(cfg.sid@, d.msg@)->Some_0,
            cfg.beta@,
            pad,
            my_wit,
        ),
    ensures
        opens(j, d, me, sks[me], cfg, pki),
        (d.ciphertexts@[me].z@ - pad.r@) % fp_order() == x,
{
    assert(gin_is_pow(pki[j]@, sks[j]) && gin_is_pow(pki[me]@, sks[me]));
    law_two_keys_have_one_pad(
        sks[j],
        pki[j]@,
        sks[me],
        pki[me]@,
        cfg.sid@,
        d.msg@,
        cfg.beta@,
    );
    law_recipient_decrypts(
        sks[j],
        pki[j]@,
        sks[me],
        pki[me]@,
        cfg,
        d.msg@,
        x,
        d.ciphertexts@[me],
        wit,
        pad,
        my_wit,
    );
    assert(pad.r@ == dealer_pad(j, d, sks[me], cfg, pki));
}

/// The value of the joint polynomial is the sum of the values of the dealt ones.
proof fn lemma_joint_sum(ds: Seq<Dealing>, z: int)
    ensures
        joint_value(ds, z) == sigma(ds.len(), |i: int| poly_eval(dealt_poly(ds[i]), z)),
    decreases ds.len(),
{
    if ds.len() > 0 {
        let rest = ds.drop_last();
        lemma_joint_sum(rest, z);
        lemma_sigma_eq(
            rest.len(),
            |i: int| poly_eval(dealt_poly(rest[i]), z),
            |i: int| poly_eval(dealt_poly(ds[i]), z),
        );
    }
}

/// An honest session completes, whatever the number of parties. Let every party `1, …, n` be
/// registered with the key of its secret key and have dealt a polynomial `f_j` with `t`
/// coefficients. Then completion succeeds for every party `me`; its share is
/// `∑_j f_j(me)`, the public key is `g_out^{∑_j f_j(0)}`, and the public share of party `l`
/// is `g_out^{∑_j f_j(l)}`.
pub proof fn law_honest_session_completes(
    cfg: DkgConfig,
    pki: Map<u32, GinAffine>,
    sks: Map<u32, int>,
    zk: ZkParams,
    fs: Map<u32, Seq<int>>,
    dealings: Map<u32, Dealing>,
    owns: Map<u32, DealingPrivate>,
    me: u32,
    res: GoldenResult<DkgOutput>,
)
    requires
        honest_parties(cfg, pki, sks),
        dealings.dom().finite(),
        forall|k: u32| #[trigger] dealings.contains_key(k) <==> 1 <= k <= cfg.n,
        forall|j: u32|
            #![trigger dealings[j]]
            1 <= j <= cfg.n ==> honestly_dealt(
                j,
                sks[j],
                cfg,
                pki,
                zk,
                fs[j],
                dealings[j],
                owns[j],
            ),
        1 <= me <= cfg.n,
        completed(dealings, me, sks[me], cfg, pki, owns[me].own_share@, res),
        all_commit(dealing_list(dealings), cfg.t as nat) ==> (res matches Ok(out)
            ==> keys_of_joint_polynomial(dealings, pki, out)),
        shares_valid(dealings, me, owns[me].own_share@) ==> (res matches Ok(out)
            ==> out.secret_share@ == joint_value(dealing_list(dealings), me as int) % fp_order()),
    ensures
        res matches Ok(out) && {
            &&& out.secret_share@ == sigma(
                cfg.n as nat,
                |i: int| poly_eval(fs[(i + 1) as u32], me as int),
            ) % fp_order()
            &&& out.public_key@ == gout_pow(
                sigma(cfg.n as nat, |i: int| fs[(i + 1) as u32][0]) % fp_order(),
            )
            &&& out.public_key_shares@.dom() == pki.dom()
            &&& forall|l: u32|
                1 <= l <= cfg.n ==> (#[trigger] out.public_key_shares@[l])@ == gout_pow(
                    sigma(cfg.n as nat, |i: int| poly_eval(fs[(i + 1) as u32], l as int))
                        % fp_order(),
                )
        },
{
    let ids = ordered(dealings.dom());
    let ds = dealing_list(dealings);
    let n = cfg.n as nat;
    let m = fp_order();
    lemma_fp_order();
    assert forall|k: u32| #[trigger] dealings.dom().contains(k) <==> 1 <= k <= cfg.n by {
        assert(dealings.contains_key(k) <==> 1 <= k <= cfg.n);
    }
    lemma_first_indices(cfg.n, dealings.dom());
    assert(ids == first_indices(n));
    law_every_dealing_is_listed(dealings);
    assert(dealings.contains_key(me));
    assert(counted(dealings, me, cfg));
    // every dealing opens
    if res is Err {
        let e = res->Err_0;
        let i = choose|i: int|
            0 <= i < ids.len() && #[trigger] all_open(dealings, me, sks[me], cfg, pki, i) && !opens(
                ids[i],
                dealings[ids[i]],
                me,
                sks[me],
                cfg,
                pki,
            ) && crate::dkg::opening_error(ids[i], dealings[ids[i]], me, sks[me], cfg, pki, e) && (
            ids[i] != me ==> crate::dkg::pad_derived(
                ids[i],
                dealings[ids[i]],
                sks[me],
                cfg,
                pki,
            ));
        let j = ids[i];
        let d = dealings[j];
        assert(j == i + 1);
        assert(honestly_dealt(j, sks[j], cfg, pki, zk, fs[j], d, owns[j]));
        let wit = lemma_dealt_to(j, me, sks[j], cfg, pki, zk, fs[j], d, owns[j]);
        assert(j != me);
        assert(gin_is_pow(pki[j]@, sks[j]) && gin_is_pow(pki[me]@, sks[me]));
        law_two_keys_have_one_pad(
            sks[j],
            pki[j]@,
            sks[me],
            pki[me]@,
            cfg.sid@,
            d.msg@,
            cfg.beta@,
        );
        assert(has_pad(pki[j]@, sks[me], cfg.sid@, d.msg@));
        let (pad, my_wit) = choose|pad: PadOutput, my_wit: EvrfWitness| #[trigger]
            pad_made(
                sks[me],
                pki[j]@,
                h1_point(cfg.sid@, d.msg@)->Some_0,
                h2_point(cfg.sid@, d.msg@)->Some_0,
                cfg.beta@,
                pad,
                my_wit,
            );
        let x = poly_eval(fs[j], me as int) % m;
        lemma_cong_mod(poly_eval(fs[j], me as int), m);
        lemma_opens(j, me, cfg, pki, sks, x, d, wit, pad, my_wit);
        assert(false);
    }
    let out = res->Ok_0;
    // the dealings commit to the polynomials
    assert forall|i: int| 0 <= i < ds.len() implies dealt_poly(#[trigger] ds[i]) == fs[(i + 1) as u32]
        && ds[i].commitment@.len() == cfg.t && gouts_in_group(gouts(ds[i].commitment@)) by {
        let j = (i + 1) as u32;
        assert(ids[i] == j);
        let d = dealings[j];
        assert(honestly_dealt(j, sks[j], cfg, pki, zk, fs[j], d, owns[j]));
        let wit = lemma_dealt_to(j, me, sks[j], cfg, pki, zk, fs[j], d, owns[j]);
        lemma_commits_logs(gouts(d.commitment@), fs[j]);
    }
    assert(all_commit(ds, cfg.t as nat));
    assert(shares_valid(dealings, me, owns[me].own_share@)) by {
        assert(ids[me - 1] == me);
        assert(dealt_poly(ds[me - 1]) == fs[me]);
        let d = dealings[me];
        assert(honestly_dealt(me, sks[me], cfg, pki, zk, fs[me], d, owns[me]));
        let w = lemma_dealt_to(me, me, sks[me], cfg, pki, zk, fs[me], d, owns[me]);
        assert forall|j: u32| #[trigger] dealings.contains_key(j) && j != me implies
            ciphertext_matches(dealings[j], me) by {
            let d = dealings[j];
            assert(honestly_dealt(j, sks[j], cfg, pki, zk, fs[j], d, owns[j]));
            let wit = lemma_dealt_to(j, me, sks[j], cfg, pki, zk, fs[j], d, owns[j]);
            lemma_matches(me, sks[j], cfg, pki, fs[j], d, wit);
        }
    }
    // the sums
    assert forall|z: int| #[trigger] joint_value(ds, z) == sigma(
        n,
        |i: int| poly_eval(fs[(i + 1) as u32], z),
    ) by {
        lemma_joint_sum(ds, z);
        let g = |i: int| poly_eval(dealt_poly(ds[i]), z);
        let h = |i: int| poly_eval(fs[(i + 1) as u32], z);
        assert forall|i: int| 0 <= i < n implies #[trigger] g(i) == h(i) by {
            assert(dealt_poly(ds[i]) == fs[(i + 1) as u32]);
        }
        lemma_sigma_eq(n, g, h);
    }
    let g = |i: int| poly_eval(fs[(i + 1) as u32], 0);
    let h = |i: int| fs[(i + 1) as u32][0];
    assert forall|i: int| 0 <= i < n implies #[trigger] g(i) == h(i) by {
        assert(dealt_poly(ds[i]) == fs[(i + 1) as u32]);
        lemma_poly_at_zero(fs[(i + 1) as u32]);
    }
    lemma_sigma_eq(n, g, h);
    assert(joint_value(ds, 0) == sigma(n, g));
    assert forall|l: u32| 1 <= l <= cfg.n implies (#[trigger] out.public_key_shares@[l])@
        == gout_pow(
        sigma(n, |i: int| poly_eval(fs[(i + 1) as u32], l as int)) % fp_order(),
    ) by {
        assert(pki.contains_key(l));
        assert(gout_is_pow(out.public_key_shares@[l]@, joint_value(ds, l as int) % m));
    }
}

/// What an honest dealer broadcasts. The commitment is `g_out^{f_m}` for every coefficient;
/// every other party of the session, and no one else, gets a pad commitment `g_out^r` and
/// `r + f(k)`; the dealer keeps `f(j)`. Where the hashed points are in the prime-order
/// subgroup, `r` is the pad of the two keys.
pub proof fn law_honest_dealing_holds_the_shares(
    j: u32,
    sk: int,
    cfg: DkgConfig,
    pki: Map<u32, GinAffine>,
    zk: ZkParams,
    f: Seq<int>,
    d: Dealing,
    own: DealingPrivate,
    k: u32,
)
    requires
        honestly_dealt(j, sk, cfg, pki, zk, f, d, own),
        1 <= k <= cfg.n,
    ensures
        d.dealer == j,
        d.sid@ == cfg.sid@,
        d.commitment@.len() == cfg.t,
        forall|m: int| 0 <= m < cfg.t ==> (#[trigger] d.commitment@[m])@ == gout_pow(f[m]),
        own.own_share@ == poly_eval(f, j as int) % fp_order(),
        forall|l: u32| #[trigger] d.ciphertexts@.contains_key(l) <==> 1 <= l <= cfg.n && l != j,
        k != j ==> exists|r: int|
            {
                &&& #[trigger] gout_is_pow(d.ciphertexts@[k].r_commit@, r)
                &&& d.ciphertexts@[k].z@ == (r + poly_eval(f, k as int)) % fp_order()
                &&& h1_point(cfg.sid@, d.msg@) matches Some(h1) && h2_point(
                    cfg.sid@,
                    d.msg@,
                ) matches Some(h2) && (gin_in_group(pki[k]@) && gin_in_group(h1) && gin_in_group(h2)
                    ==> r == pad_in_exponents(
                    sk,
                    gin_log(pki[k]@),
                    gin_log(h1),
                    gin_log(h2),
                    cfg.beta@,
                ))
            },
{
    let wit = lemma_dealt_to(j, k, sk, cfg, pki, zk, f, d, own);
    let c = gouts(d.commitment@);
    assert forall|m: int| 0 <= m < cfg.t implies (#[trigger] d.commitment@[m])@ == gout_pow(f[m]) by {
        assert(c[m] == d.commitment@[m]@);
        assert(gout_is_pow(c[m], f[m]));
    }
    let reg = choose|reg: RegisteredKey|
        reg.id == j && #[trigger] deal_result(reg, sk, cfg, pki, zk, f, d.msg@, Ok((d, own)));
    let res: GoldenResult<(Dealing, DealingPrivate)> = Ok((d, own));
    let (cts, wits) = choose|cts: Map<u32, ShareCiphertext>, wits: Seq<EvrfWitness>| #[trigger]
        dealt(reg, sk, cfg, pki, zk, f, d.msg@, cts, wits, res);
    assert(dealt(reg, sk, cfg, pki, zk, f, d.msg@, cts, wits, res));
    lemma_next_index(cfg.n, j);
    if k != j {
        let m = fp_order();
        lemma_fp_order();
        let ct = d.ciphertexts@[k];
        let e = poly_eval(f, k as int);
        lemma_cong_mod(e, m);
        lemma_cong_add(wit.r@, wit.r@, e % m, e, m);
        let (h1, h2) = (
            h1_point(cfg.sid@, d.msg@)->Some_0,
            h2_point(cfg.sid@, d.msg@)->Some_0,
        );
        if gin_in_group(pki[k]@) && gin_in_group(h1) && gin_in_group(h2) {
            let out = PadOutput { r: wit.r, r_commit: ct.r_commit };
            law_pad_is_that_of_the_keys(sk, pki[k]@, h1, h2, cfg.beta@, out, wit);
        }
        assert(gout_is_pow(ct.r_commit@, wit.r@));
    }
}

/// An output is consistent exactly where the secret share is the exponent of the party's
/// public share.
pub proof fn law_output_check(out: DkgOutput, me: u32, k: int)
    requires
        out.public_key_shares@.contains_key(me),
        gout_is_pow(out.public_key_shares@[me]@, k),
    ensures
        output_consistent(out, me) <==> out.secret_share@ == k,
{
    lemma_fp_range(out.secret_share);
}


/// Completion checks every dealing. Where it succeeds, there are as many dealings as parties,
/// and every dealing but one's own holds a ciphertext for `me` whose commitment is that of
/// the pad that `me` derives. Where it fails although the dealings are as many, the error is
/// true of a dealing: it has no pad, no ciphertext for `me`, or one with another commitment.
pub proof fn law_completion_checks_every_dealing(
    dealings: Map<u32, Dealing>,
    me: u32,
    sk: int,
    cfg: DkgConfig,
    pki: Map<u32, GinAffine>,
    own: int,
    res: GoldenResult<DkgOutput>,
)
    requires
        dealings.dom().finite(),
        dealings.dom().len() <= u32::MAX,
        completed(dealings, me, sk, cfg, pki, own, res),
    ensures
        dealings.dom().len() != cfg.n || !dealings.contains_key(me) ==> res matches Err(
            GoldenError::Internal(_),
        ),
        res is Ok ==> forall|j: u32| #[trigger]
            dealings.contains_key(j) && j != me ==> {
                let d = dealings[j];
                &&& d.ciphertexts@.contains_key(me)
                &&& d.ciphertexts@[me].r_commit@ == gout_pow(
                    pad_value(
                        sk,
                        pki[j]@,
                        h1_point(cfg.sid@, d.msg@)->Some_0,
                        h2_point(cfg.sid@, d.msg@)->Some_0,
                        cfg.beta@,
                    ),
                )
            },
        dealings.dom().len() == cfg.n && dealings.contains_key(me) ==> (res matches Err(e) ==> {
            exists|j: u32| #[trigger]
                dealings.contains_key(j) && j != me && {
                    let d = dealings[j];
                    match e {
                        GoldenError::Internal(_) => !has_pad(pki[j]@, sk, cfg.sid@, d.msg@),
                        GoldenError::MissingCiphertext { dealer, recipient } => dealer == j
                            && recipient == me && !d.ciphertexts@.contains_key(me),
                        GoldenError::CiphertextCheckFailed { dealer, recipient } => dealer == j
                            && recipient == me && d.ciphertexts@.contains_key(me)
                            && d.ciphertexts@[me].r_commit@ != gout_pow(
                            pad_value(
                                sk,
                                pki[j]@,
                                h1_point(cfg.sid@, d.msg@)->Some_0,
                                h2_point(cfg.sid@, d.msg@)->Some_0,
                                cfg.beta@,
                            ),
                        ),
                        _ => false,
                    }
                }
        }),
{
    let ids = ordered(dealings.dom());
    law_every_dealing_is_listed(dealings);
    if res is Ok {
        assert forall|j: u32| #[trigger] dealings.contains_key(j) && j != me implies
            dealings[j].ciphertexts@.contains_key(me) && dealings[j].ciphertexts@[me].r_commit@
            == gout_pow(dealer_pad(j, dealings[j], sk, cfg, pki)) by {
            let i = choose|i: int|
                0 <= i < ids.len() && #[trigger] dealing_list(dealings)[i] == dealings[j]
                    && ids[i] == j;
            assert(opens(ids[i], dealings[ids[i]], me, sk, cfg, pki));
        }
    } else if counted(dealings, me, cfg) {
        let e = res->Err_0;
        let i = choose|i: int|
            0 <= i < ids.len() && #[trigger] all_open(dealings, me, sk, cfg, pki, i) && !opens(
                ids[i],
                dealings[ids[i]],
                me,
                sk,
                cfg,
                pki,
            ) && crate::dkg::opening_error(ids[i], dealings[ids[i]], me, sk, cfg, pki, e) && (ids[i]
                != me ==> crate::dkg::pad_derived(ids[i], dealings[ids[i]], sk, cfg, pki));
        assert(dealings.contains_key(ids[i]) && ids[i] != me);
    }
}

} // verus!
