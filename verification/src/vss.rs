//! Feldman verifiable secret sharing.
//!
//! A polynomial `f(Z) = a_0 + a_1·Z + … + a_{t-1}·Z^{t-1}` is committed to by
//! `C = (g_out^{a_0}, …, g_out^{a_{t-1}})`. Anyone can derive the commitment to a
//! *share* `f(j)` as `X_j = ∏_l A_l^{j^l}`.
use crate::algebra::{
    lemma_cong_add, lemma_cong_mod, lemma_cong_mul, lemma_mod_reduced, lemma_poly_eval_cons,
    lemma_pow_succ, poly_eval,
};
use crate::curves::{
    gout_group, gout_identity, gout_in_group, gout_is_pow, gout_log, gout_logs, gout_mul,
    gout_multiple, gout_on_curve, gout_pow, gout_scale_bits, gout_sum, gouts, gouts_in_group,
    gouts_on_curve, lemma_gout_add, lemma_gout_assoc, lemma_gout_eq, lemma_gout_log,
    lemma_gout_multiple, lemma_gout_multiple_mul, lemma_gout_multiple_sum, Fp, GoutAffine,
    GoutPoint, GoutProj,
};
use crate::field::{fp_order, fps, lemma_fp_order};
use crate::shamir::Polynomial;
use vstd::arithmetic::power::pow;
use vstd::prelude::*;

verus! {

/// `c` is the Feldman commitment to the polynomial with coefficients `f`.
pub open spec fn commits_to(c: Seq<GoutPoint>, f: Seq<int>) -> bool {
    &&& c.len() == f.len()
    &&& forall|i: int| 0 <= i < c.len() ==> gout_is_pow(#[trigger] c[i], f[i])
}

/// `∏_l A_l^{j^l}` by Horner's rule in the exponent, from the last coefficient to
/// the first.
pub open spec fn horner_points(c: Seq<GoutPoint>, j: int) -> GoutPoint
    decreases c.len(),
{
    if c.len() <= 1 {
        c[0]
    } else {
        gout_sum(gout_scale_bits(horner_points(c.drop_first(), j), j), c[0])
    }
}

/// `∑_l j^l · A_l` in the group of the curve's points.
pub open spec fn power_sum(c: Seq<GoutPoint>, j: int) -> GoutPoint
    decreases c.len(),
{
    if c.len() == 0 {
        gout_identity()
    } else {
        gout_sum(
            power_sum(c.drop_last(), j),
            gout_multiple(c.last(), pow(j, (c.len() - 1) as nat) as nat),
        )
    }
}

proof fn lemma_pow_nonnegative(j: int, e: nat)
    requires
        j >= 0,
    ensures
        pow(j, e) >= 0,
    decreases e,
{
    if e == 0 {
        vstd::arithmetic::power::lemma_pow0(j);
    } else {
        lemma_pow_nonnegative(j, (e - 1) as nat);
        lemma_pow_succ(j, (e - 1) as nat);
        let p = pow(j, (e - 1) as nat);
        assert(j * p >= 0 && p * j >= 0) by (nonlinear_arith)
            requires
                j >= 0,
                p >= 0,
        ;
    }
}

/// The sum is a point of the curve.
proof fn lemma_power_sum(c: Seq<GoutPoint>, j: int)
    requires
        gout_group(gout_identity()),
        gouts_on_curve(c),
        j >= 0,
    ensures
        gout_on_curve(power_sum(c, j)),
    decreases c.len(),
{
    if c.len() == 0 {
        reveal(gout_group);
    } else {
        let d = c.drop_last();
        assert forall|i: int| 0 <= i < d.len() implies #[trigger] gout_on_curve(d[i]) by {
            assert(gout_on_curve(c[i]));
        }
        lemma_power_sum(d, j);
        assert(gout_on_curve(c[c.len() - 1]));
        let k = pow(j, (c.len() - 1) as nat) as nat;
        lemma_gout_multiple(c.last(), k);
        lemma_gout_add(power_sum(d, j), gout_multiple(c.last(), k));
    }
}

/// A step of Horner's rule: `∑_l j^l · A_l = A_0 + j · ∑_l j^l · A_{l+1}`.
proof fn lemma_power_sum_cons(a: GoutPoint, c: Seq<GoutPoint>, j: int)
    requires
        gout_group(gout_identity()),
        gout_on_curve(a),
        gouts_on_curve(c),
        j >= 0,
    ensures
        power_sum(seq![a] + c, j) == gout_sum(gout_multiple(power_sum(c, j), j as nat), a),
    decreases c.len(),
{
    let ac = seq![a] + c;
    vstd::arithmetic::power::lemma_pow0(j);
    if c.len() == 0 {
        assert(ac.drop_last() =~= c);
        assert(power_sum(c, j) == gout_identity());
        lemma_gout_multiple(a, j as nat);
        lemma_gout_add(a, a);
    } else {
        let (d, b) = (c.drop_last(), c.last());
        let m = d.len();
        assert forall|i: int| 0 <= i < d.len() implies #[trigger] gout_on_curve(d[i]) by {
            assert(gout_on_curve(c[i]));
        }
        assert(gout_on_curve(c[c.len() - 1]));
        assert(ac.drop_last() =~= seq![a] + d);
        assert(ac.last() == b);
        lemma_power_sum_cons(a, d, j);
        lemma_power_sum(d, j);
        lemma_pow_nonnegative(j, m);
        let k = pow(j, m) as nat;
        vstd::arithmetic::power::lemma_pow_adds(j, m, 1);
        vstd::arithmetic::power::lemma_pow1(j);
        assert(pow(j, m + 1) as nat == k * (j as nat));
        let (s, t) = (power_sum(d, j), gout_multiple(b, k));
        lemma_gout_multiple(b, k);
        // j·(s + t) + a = (j·s + a) + j·t
        lemma_gout_multiple_sum(s, t, j as nat);
        lemma_gout_multiple_mul(b, k, j as nat);
        lemma_gout_multiple(s, j as nat);
        lemma_gout_multiple(t, j as nat);
        lemma_gout_assoc(gout_multiple(s, j as nat), gout_multiple(t, j as nat), a);
    }
}

/// The share commitment at index zero is the commitment to the secret: only the first term of
/// `∑_l 0^l · A_l` is left.
pub proof fn law_share_commitment_at_zero(c: Seq<GoutPoint>)
    requires
        gout_group(gout_identity()),
        gouts_on_curve(c),
        c.len() > 0,
    ensures
        power_sum(c, 0) == c[0],
    decreases c.len(),
{
    let (d, b) = (c.drop_last(), c.last());
    assert forall|i: int| 0 <= i < d.len() implies #[trigger] gout_on_curve(d[i]) by {
        assert(gout_on_curve(c[i]));
    }
    assert(gout_on_curve(c[c.len() - 1]));
    assert(gout_on_curve(c[0]));
    if d.len() == 0 {
        assert(power_sum(d, 0) == gout_identity());
        vstd::arithmetic::power::lemma_pow0(0);
        lemma_gout_multiple(b, 1);
        lemma_gout_add(b, b);
    } else {
        law_share_commitment_at_zero(d);
        vstd::arithmetic::power::lemma_pow_adds(0, (d.len() - 1) as nat, 1);
        vstd::arithmetic::power::lemma_pow1(0);
        assert(pow(0, (d.len() - 1) as nat) * 0 == 0) by (nonlinear_arith);
        lemma_gout_add(c[0], c[0]);
    }
}

/// A commitment lies in the prime-order group, and its exponents are the
/// coefficients.
pub proof fn lemma_commits_logs(c: Seq<GoutPoint>, f: Seq<int>)
    requires
        commits_to(c, f),
    ensures
        gouts_in_group(c),
        gout_logs(c) == f,
{
    assert forall|i: int| 0 <= i < c.len() implies #[trigger] gout_in_group(c[i]) && gout_log(c[i])
        == f[i] by {
        lemma_gout_log(c[i], f[i]);
    }
    assert(gout_logs(c) =~= f);
}

/// `C = (g_out^{a_0}, …, g_out^{a_{t-1}})`.
pub fn commit(poly: &Polynomial) -> (r: Vec<GoutAffine>)
    ensures
        commits_to(gouts(r@), poly@),
{
    let coeffs = poly.coeffs();
    let mut out: Vec<GoutAffine> = Vec::with_capacity(coeffs.len());
    let mut i: usize = 0;
    while i < coeffs.len()
        invariant
            i <= coeffs@.len(),
            out@.len() == i,
            forall|k: int| 0 <= k < i ==> gout_is_pow((#[trigger] out@[k])@, coeffs@[k]@),
        decreases coeffs@.len() - i,
    {
        out.push(gout_mul(&coeffs[i]));
        i = i + 1;
    }
    proof {
        assert forall|k: int| 0 <= k < gouts(out@).len() implies gout_is_pow(
            #[trigger] gouts(out@)[k],
            poly@[k],
        ) by {
            assert(fps(coeffs@)[k] == coeffs@[k]@);
            assert(gout_is_pow(out@[k]@, coeffs@[k]@));
        }
    }
    out
}

/// `X_j = ∏_l A_l^{j^l}`, the Feldman share commitment. Of a commitment to `f` it
/// is `g_out^{f(j)}`.
pub fn share_commitment(commitment: &[GoutAffine], j: u32) -> (r: GoutAffine)
    requires
        commitment@.len() > 0,
    ensures
        r@ == horner_points(gouts(commitment@), j as int),
        j == 0 ==> r@ == commitment@[0]@,
        gouts_on_curve(gouts(commitment@)) ==> r@ == power_sum(gouts(commitment@), j as int),
        gouts_in_group(gouts(commitment@)) ==> gout_is_pow(
            r@,
            poly_eval(gout_logs(gouts(commitment@)), j as int) % fp_order(),
        ),
{
    share_commitment_proj(commitment, j)
}

/// [`share_commitment`] for callers that add the result to another accumulator.
pub fn share_commitment_proj(commitment: &[GoutAffine], j: u32) -> (r: GoutProj)
    requires
        commitment@.len() > 0,
    ensures
        r@ == horner_points(gouts(commitment@), j as int),
        j == 0 ==> r@ == commitment@[0]@,
        gouts_on_curve(gouts(commitment@)) ==> r@ == power_sum(gouts(commitment@), j as int),
        gouts_in_group(gouts(commitment@)) ==> gout_is_pow(
            r@,
            poly_eval(gout_logs(gouts(commitment@)), j as int) % fp_order(),
        ),
{
    let ghost c = gouts(commitment@);
    let ghost logs = gout_logs(c);
    let ghost m = fp_order();
    let ghost on_curve = gouts_on_curve(c);
    let _zero = GoutAffine::zero();  // the group of the curve's points
    let mut i: usize = commitment.len() - 1;
    let mut acc: GoutAffine = commitment[i];
    proof {
        lemma_fp_order();
        let s = c.skip(i as int);
        assert(s.len() == 1 && s[0] == acc@);
        if on_curve {
            assert(gout_on_curve(c[i as int]));
            assert(s =~= seq![acc@] + Seq::<GoutPoint>::empty());
            lemma_power_sum_cons(acc@, Seq::empty(), j as int);
            lemma_gout_multiple(acc@, j as nat);
            lemma_gout_add(acc@, acc@);
        }
        if gouts_in_group(c) {
            assert(gout_in_group(c[i as int]));
            let k = gout_log(acc@);
            assert(logs.skip(i as int) =~= seq![k] + Seq::<int>::empty());
            lemma_poly_eval_cons(k, Seq::<int>::empty(), j as int);
            assert(0 * (j as int) == 0);
            lemma_mod_reduced(k, m);
        }
    }
    while i > 0
        invariant
            i < commitment@.len(),
            c == gouts(commitment@),
            logs == gout_logs(c),
            m == fp_order(),
            m > 1,
            acc@ == horner_points(c.skip(i as int), j as int),
            gout_group(gout_identity()),
            j == 0 ==> acc@ == c[i as int],
            on_curve == gouts_on_curve(c),
            on_curve ==> acc@ == power_sum(c.skip(i as int), j as int),
            gouts_in_group(c) ==> gout_is_pow(
                acc@,
                poly_eval(logs.skip(i as int), j as int) % m,
            ),
        decreases i,
    {
        i = i - 1;
        let ghost acc0 = acc@;
        let ghost rest = c.skip(i + 1);
        let a = commitment[i];
        let scaled = acc.times_small(j);
        acc = scaled.plus(&a);
        proof {
            let s = c.skip(i as int);
            assert(s.drop_first() =~= rest);
            assert(s[0] == a@);
            if on_curve {
                assert(gout_on_curve(c[i as int]));
                assert forall|k: int| 0 <= k < rest.len() implies #[trigger] gout_on_curve(
                    rest[k],
                ) by {
                    assert(gout_on_curve(c[i + 1 + k]));
                }
                assert(s =~= seq![a@] + rest);
                lemma_power_sum(rest, j as int);
                lemma_power_sum_cons(a@, rest, j as int);
            }
            if gouts_in_group(c) {
                let e = poly_eval(logs.skip(i + 1), j as int);
                let jj = j as int;
                let k = logs[i as int];
                assert(gout_in_group(c[i as int]));
                lemma_gout_log(acc0, e % m);
                lemma_gout_log(scaled@, ((e % m) * jj) % m);
                assert(logs.skip(i as int) =~= seq![k] + logs.skip(i + 1));
                lemma_poly_eval_cons(k, logs.skip(i + 1), jj);
                lemma_cong_mod(e, m);
                lemma_cong_mul(e % m, e, jj, jj, m);
                lemma_cong_mod((e % m) * jj, m);
                lemma_cong_add(((e % m) * jj) % m, e * jj, k, k, m);
            }
        }
    }
    proof {
        assert(c.skip(0) =~= c);
        assert(logs.skip(0) =~= logs);
    }
    acc
}

/// `g_out^{share} == X_j`? Of a commitment to `f` this holds for the share `f(j)`
/// and for no other.
pub fn verify_share(commitment: &[GoutAffine], j: u32, share: Fp) -> (r: bool)
    requires
        commitment@.len() > 0,
    ensures
        r == (gout_pow(share@) == horner_points(gouts(commitment@), j as int)),
        gouts_on_curve(gouts(commitment@)) ==> r == (gout_pow(share@) == power_sum(
            gouts(commitment@),
            j as int,
        )),
        gouts_in_group(gouts(commitment@)) ==> r == (share@ == poly_eval(
            gout_logs(gouts(commitment@)),
            j as int,
        ) % fp_order()),
{
    let lhs = gout_mul(&share);
    let rhs = share_commitment_proj(commitment, j);
    proof {
        if gouts_in_group(gouts(commitment@)) {
            let k = poly_eval(gout_logs(gouts(commitment@)), j as int) % fp_order();
            lemma_gout_log(lhs@, share@);
            lemma_gout_log(rhs@, k);
            lemma_gout_eq(lhs@, rhs@);
        }
    }
    lhs == rhs
}

/// The share commitment that is derived from the commitment to a polynomial is the
/// commitment to the share: `X_j = g_out^{f(j)}`.
pub proof fn law_share_commitment_is_commitment_to_share(
    commitment: Seq<GoutPoint>,
    f: Seq<int>,
    j: u32,
    x: GoutPoint,
)
    requires
        commits_to(commitment, f),
        gouts_in_group(commitment) ==> gout_is_pow(
            x,
            poly_eval(gout_logs(commitment), j as int) % fp_order(),
        ),
    ensures
        x == gout_pow(poly_eval(f, j as int) % fp_order()),
        gout_log(x) == poly_eval(f, j as int) % fp_order(),
{
    lemma_commits_logs(commitment, f);
    lemma_gout_log(x, poly_eval(f, j as int) % fp_order());
}

} // verus!
