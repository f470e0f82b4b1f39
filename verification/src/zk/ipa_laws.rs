//! What the inner-product argument proves, and the weights that its verifier uses.
use crate::algebra::{
    cong, lemma_cong_add, lemma_cong_mod, lemma_cong_mul, lemma_sigma_cong, lemma_sigma_eq,
    lemma_sigma_first, sigma,
};
use crate::curves::{
    gout_in_group, gout_log, gout_logs, gout_pow, gouts_in_group, lemma_gout_eq, GoutPoint,
};
use crate::field::{fp_order, lemma_fp_order};
use crate::lagrange::inv;
use crate::transcript::TranscriptEvent;
use crate::zk::ipa::{
    ipa_made, ipa_proof_is, ipa_run, ipa_start, ipa_verified, law_ipa_round_trip, lemma_s_vec_len,
    rounds_sum, s_vec, InnerProductProof,
};
use vstd::arithmetic::power2::{lemma_pow2_unfold, pow2};
use vstd::prelude::*;

verus! {

/// A challenge, or its inverse, which is taken to be zero for zero.
pub open spec fn challenge_power(u: int, inverted: bool) -> int {
    if !inverted {
        u
    } else if u == 0 {
        0
    } else {
        inv(u)
    }
}

/// The product of the challenges of all rounds, that of a round inverted where base `j` is in
/// the first half of its bases, and not where it is in the second.
pub open spec fn base_weight(us: Seq<int>, j: int) -> int
    decreases us.len(),
{
    if us.len() == 0 {
        1
    } else {
        let half = pow2((us.len() - 1) as nat) as int;
        if j < half {
            challenge_power(us[0], true) * base_weight(us.drop_first(), j)
        } else {
            challenge_power(us[0], false) * base_weight(us.drop_first(), j - half)
        }
    }
}

/// The weight of base `j` takes in the challenge of every round.
pub proof fn law_base_weights(us: Seq<int>, j: int)
    requires
        0 <= j < pow2(us.len()),
    ensures
        s_vec(us).len() == pow2(us.len()),
        cong(s_vec(us)[j], base_weight(us, j), fp_order()),
    decreases us.len(),
{
    let m = fp_order();
    lemma_fp_order();
    lemma_s_vec_len(us);
    if us.len() == 0 {
        vstd::arithmetic::power2::lemma_pow2(0);
        vstd::arithmetic::power::lemma_pow0(2);
    } else {
        let rest = us.drop_first();
        let t = s_vec(rest);
        lemma_s_vec_len(rest);
        lemma_pow2_unfold(us.len());
        let half = pow2((us.len() - 1) as nat) as int;
        let (i, c) = if j < half {
            (j, challenge_power(us[0], true))
        } else {
            (j - half, challenge_power(us[0], false))
        };
        law_base_weights(rest, i);
        assert(s_vec(us)[j] == (t[i] * c) % m);
        lemma_cong_mod(t[i] * c, m);
        let w = base_weight(rest, i);
        lemma_cong_mul(t[i], w, c, c, m);
        assert(w * c == c * w) by (nonlinear_arith);
    }
}

/// What the rounds have sent is weighted with the squares of the challenges, and of their
/// inverses, round by round.
pub proof fn law_round_weights(us: Seq<int>, ls: Seq<int>, rs: Seq<int>)
    requires
        us.len() == ls.len() == rs.len(),
    ensures
        rounds_sum(us, ls, rs) == sigma(
            us.len(),
            |k: int|
                (us[k] * us[k]) * ls[k] + (challenge_power(us[k], true) * challenge_power(
                    us[k],
                    true,
                )) * rs[k],
        ),
    decreases us.len(),
{
    let f = |k: int|
        (us[k] * us[k]) * ls[k] + (challenge_power(us[k], true) * challenge_power(us[k], true))
            * rs[k];
    if us.len() > 0 {
        let (u2, l2, r2) = (us.drop_first(), ls.drop_first(), rs.drop_first());
        law_round_weights(u2, l2, r2);
        lemma_sigma_first(us.len(), f);
        let g = |k: int|
            (u2[k] * u2[k]) * l2[k] + (challenge_power(u2[k], true) * challenge_power(
                u2[k],
                true,
            )) * r2[k];
        lemma_sigma_eq((us.len() - 1) as nat, |k: int| f(k + 1), g);
    }
}

/// The argument proves the inner product. A proof that was made for the vectors `a` and `b`
/// is accepted, from an equal transcript, exactly for the point with the exponent
/// `∑ a_i·f_i·g_i + ∑ b_i·f'_i·h_i + q·∑ a_i·b_i`, where `f` and `f'` are the factors, and
/// `g`, `h` and `q` the exponents of the bases; whatever the length of the vectors.
pub proof fn law_argument_proves_the_inner_product(
    made: InnerProductProof,
    log: Seq<TranscriptEvent>,
    log2: Seq<TranscriptEvent>,
    n: nat,
    p: GoutPoint,
    q: GoutPoint,
    g_factors: Seq<int>,
    h_factors: Seq<int>,
    g: Seq<GoutPoint>,
    h: Seq<GoutPoint>,
    a: Seq<int>,
    b: Seq<int>,
    res: Result<(), String>,
)
    requires
        a.len() == n <= usize::MAX,
        b.len() == n,
        g.len() == n,
        h.len() == n,
        g_factors.len() == n,
        h_factors.len() == n,
        ipa_run(q, ipa_start(log, g_factors, h_factors, g, h, a, b)) matches Some(end)
            && ipa_proof_is(made, end),
        ipa_made(made, log, log2, q, g_factors, h_factors, g, h, a, b),
        ipa_verified(made, log, n, g_factors, h_factors, p, q, g, h, res),
        gout_in_group(p),
        gout_in_group(q),
        gouts_in_group(g),
        gouts_in_group(h),
    ensures
        res is Ok <==> cong(
            gout_log(p),
            sigma(n, |i: int| a[i] * (gout_log(g[i]) * g_factors[i])) + sigma(
                n,
                |i: int| b[i] * (gout_log(h[i]) * h_factors[i]),
            ) + gout_log(q) * sigma(n, |i: int| a[i] * b[i]),
            fp_order(),
        ),
{
    let m = fp_order();
    lemma_fp_order();
    law_ipa_round_trip(
        made,
        log,
        log2,
        n,
        p,
        q,
        g_factors,
        h_factors,
        g,
        h,
        a,
        b,
        res,
    );
    let (sg, sh) = (
        crate::zk::ipa::scaled_logs(gout_logs(g), g_factors),
        crate::zk::ipa::scaled_logs(gout_logs(h), h_factors),
    );
    let e = crate::zk::ipa::ipa_exponent(gout_log(q), sg, sh, a, b);
    let fg = |i: int| a[i] * sg[i];
    let gg = |i: int| a[i] * (gout_log(g[i]) * g_factors[i]);
    assert forall|i: int| 0 <= i < n implies cong(#[trigger] fg(i), gg(i), m) by {
        let x = gout_log(g[i]) * g_factors[i];
        lemma_cong_mod(x, m);
        lemma_cong_mul(a[i], a[i], x % m, x, m);
    }
    lemma_sigma_cong(n, fg, gg, m);
    lemma_sigma_eq(n, fg, |i: int| a[i] * sg[i]);
    let fh = |i: int| b[i] * sh[i];
    let hh = |i: int| b[i] * (gout_log(h[i]) * h_factors[i]);
    assert forall|i: int| 0 <= i < n implies cong(#[trigger] fh(i), hh(i), m) by {
        let x = gout_log(h[i]) * h_factors[i];
        lemma_cong_mod(x, m);
        lemma_cong_mul(b[i], b[i], x % m, x, m);
    }
    lemma_sigma_cong(n, fh, hh, m);
    lemma_sigma_eq(n, fh, |i: int| b[i] * sh[i]);
    let c = gout_log(q) * sigma(n, |i: int| a[i] * b[i]);
    assert(e == sigma(n, fg) + sigma(n, fh) + c);
    lemma_cong_add(sigma(n, fg), sigma(n, gg), sigma(n, fh), sigma(n, hh), m);
    lemma_cong_add(sigma(n, fg) + sigma(n, fh), sigma(n, gg) + sigma(n, hh), c, c, m);
    // p = g_out^e exactly where the exponents agree
    lemma_cong_mod(e, m);
    lemma_gout_eq(p, p);
    crate::algebra::lemma_mod_reduced(gout_log(p), m);
    if p == gout_pow(e % m) {
        let k = choose|k: int| crate::curves::gout_is_pow(p, k);
        assert(gout_log(p) == e % m);
    }
}

} // verus!
