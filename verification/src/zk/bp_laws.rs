//! What holds of proofs and checks: an honest proof passes its check, and checks
//! that pass on their own pass together.
use crate::algebra::{
    cong, dot, is_prime, lemma_cong_add, lemma_cong_mod, lemma_cong_mul, lemma_cong_sub,
    lemma_dot_concat, lemma_mod_reduced, lemma_poly_eval_cons, lemma_pow_succ, lemma_sigma_add,
    lemma_sigma_cong, lemma_sigma_eq, lemma_sigma_scale, lemma_sigma_split, lemma_sigma_zero,
    poly_eval, sigma,
};
use crate::curves::{
    gout_in_group, gout_log, gout_logs, gout_scale, gouts, gouts_in_group, lemma_gout_eq, GoutPoint,
};
use crate::field::{fp_order, lemma_fp_order};
use crate::lagrange::{inv, invertible, lemma_inv};
use crate::transcript::TranscriptEvent;
use crate::zk::bp_algebra::{
    delta, g_scalar, h_scalar, l_at, lemma_dot_comm, lemma_dot_lin2, lemma_g_side, lemma_h_side,
    lemma_ipa_part, lemma_pad, lemma_t2, lemma_t_of_x, lemma_t_part, pad_values, r_at, t_sum,
    vectors_len, Vectors,
};
use crate::zk::bp_protocol::{
    absorbed, bases, blinding_poly, challenges, check_bases, check_fits, check_of, check_points,
    check_scalars, check_vanishes, combined_check, e_blinding, empty_check, entry, honest_proof,
    l_1, l_seq, lemma_pad_len, ones, pad_len, poly6_at, prover_vectors, public_vectors, r_0, r_1,
    r_3, r_seq, scaled_sum, t_poly, t_scalars, v_scalars, w_c, w_v, wire_scalars, BlindingsView,
    CheckView, ProofView,
};
use crate::zk::bp_r1cs::{blindings_fit, point_is, proof_made, R1CSProof};
use crate::zk::generators::BpGens;
use crate::zk::ipa::{
    inverse_squares, lemma_rounds_dot, lemma_s_vec_len, rounds_fit, rounds_sum, s_vec, scaled_logs,
    squares,
};
use crate::zk::r1cs::{circuit_ok, flat, satisfied, Circuit, Values, Variable};
use vstd::arithmetic::power::{lemma_pow0, pow};
use vstd::arithmetic::power2::{lemma_pow2_unfold, pow2};
use vstd::prelude::*;

verus! {

// ─── exponents of checks ────────────────────────────────────────────────────

/// The exponent of the product of a check, part by part.
pub open spec fn check_exponent(gens: BpGens, v: CheckView) -> int {
    gout_log(gens.b@) * v.b + gout_log(gens.b_blinding@) * v.b_blinding + dot(
        gout_logs(bases(gouts(gens.g_vec@), v.g.len())),
        v.g,
    ) + dot(gout_logs(bases(gouts(gens.h_vec@), v.h.len())), v.h) + dot(
        gout_logs(v.points),
        v.scalars,
    )
}

pub proof fn lemma_check_exponent(gens: BpGens, v: CheckView)
    requires
        gens.well_formed(),
        check_fits(gens, v),
    ensures
        dot(gout_logs(check_bases(gens, v)), check_scalars(v)) == check_exponent(gens, v),
        gens.in_group() && gouts_in_group(v.points) ==> gouts_in_group(check_bases(gens, v)),
{
    let two = seq![gens.b@, gens.b_blinding@];
    let g = bases(gouts(gens.g_vec@), v.g.len());
    let h = bases(gouts(gens.h_vec@), v.h.len());
    let k = seq![v.b, v.b_blinding];
    let all = check_bases(gens, v);
    assert(gout_logs(all) =~= gout_logs(two) + gout_logs(g) + gout_logs(h) + gout_logs(v.points));
    lemma_dot_concat(gout_logs(two), k, gout_logs(g), v.g);
    lemma_dot_concat(gout_logs(two) + gout_logs(g), k + v.g, gout_logs(h), v.h);
    lemma_dot_concat(
        gout_logs(two) + gout_logs(g) + gout_logs(h),
        k + v.g + v.h,
        gout_logs(v.points),
        v.scalars,
    );
    assert(dot(gout_logs(two), k) == gout_log(gens.b@) * v.b + gout_log(gens.b_blinding@)
        * v.b_blinding) by {
        reveal_with_fuel(sigma, 3);
    }
    if gens.in_group() && gouts_in_group(v.points) {
        let (n1, n2) = (2 + g.len(), 2 + g.len() + h.len());
        assert forall|i: int| 0 <= i < all.len() implies #[trigger] gout_in_group(all[i]) by {
            if i == 0 {
            } else if i == 1 {
            } else if i < n1 {
                assert(gout_in_group(gouts(gens.g_vec@)[i - 2]));
            } else if i < n2 {
                assert(gout_in_group(gouts(gens.h_vec@)[i - n1]));
            } else {
                assert(gout_in_group(v.points[i - n2]));
            }
        }
    }
}

// ─── completeness ───────────────────────────────────────────────────────────

/// `y^i · y^{-i} ≡ 1`.
proof fn lemma_inverse_powers(y: int, v: int, i: nat)
    requires
        cong(y * v, 1, fp_order()),
    ensures
        cong(pow(y, i) * pow(v, i), 1, fp_order()),
    decreases i,
{
    lemma_fp_order();
    if i == 0 {
        lemma_pow0(y);
        lemma_pow0(v);
    } else {
        let j = (i - 1) as nat;
        lemma_inverse_powers(y, v, j);
        lemma_pow_succ(y, j);
        lemma_pow_succ(v, j);
        let (p, q) = (pow(y, j), pow(v, j));
        lemma_cong_mul(p * q, 1, y * v, 1, fp_order());
        assert((p * y) * (q * v) == (p * q) * (y * v)) by (nonlinear_arith);
    }
}

/// The vectors of the prover fit together.
pub proof fn lemma_vectors(c: Circuit, w: Values, bl: BlindingsView, n: nat, y: int, z: int)
    requires
        blindings_fit(bl, n),
        invertible(y),
    ensures
        vectors_len(prover_vectors(c, w, bl, n, y, z), n),
{
    let k = prover_vectors(c, w, bl, n, y, z);
    let m = fp_order();
    lemma_fp_order();
    assert forall|i: int| 0 <= i < n implies cong(#[trigger] k.y[i] * k.v[i], 1, m) by {
        lemma_inv(y);
        lemma_inverse_powers(y, inv(y), i as nat);
        let (p, q) = (pow(y, i as nat), pow(inv(y), i as nat));
        lemma_cong_mod(p, m);
        lemma_cong_mod(q, m);
        lemma_cong_mul(p % m, p, q % m, q, m);
    }
}

/// `t(x) = ⟨l(x), r(x)⟩` for the polynomials of the prover.
pub proof fn lemma_t_x(k: Vectors, n: nat, x: int)
    requires
        vectors_len(k, n),
    ensures
        cong(dot(l_seq(k, n, x), r_seq(k, n, x)), poly6_at(t_poly(k, n), x), fp_order()),
{
    let m = fp_order();
    lemma_fp_order();
    let (l, r) = (l_seq(k, n, x), r_seq(k, n, x));
    let (l1, l2, l3) = (l_1(k, n), k.a_o, k.s_l);
    let (r0, r1, r3) = (r_0(k, n), r_1(k, n), r_3(k, n));
    let (x2, x3) = (x * x, (x * x) * x);
    assert forall|i: int| 0 <= i < n implies cong(
        #[trigger] l[i],
        x * l1[i] + x2 * l2[i] + x3 * l3[i],
        m,
    ) by {
        lemma_cong_mod(l_at(k, x, i), m);
        let (p, q) = (k.a_l[i], k.v[i] * k.w_r[i]);
        lemma_cong_mod(p + q, m);
        lemma_cong_mul(x, x, (p + q) % m, p + q, m);
        assert(x * (p + q) == x * p + x * q) by (nonlinear_arith);
        let rest = x2 * l2[i] + x3 * l3[i];
        lemma_cong_add(x * ((p + q) % m), x * p + x * q, rest, rest, m);
    }
    assert forall|i: int| 0 <= i < n implies cong(
        #[trigger] r[i],
        r0[i] + x * r1[i] + x3 * r3[i],
        m,
    ) by {
        lemma_cong_mod(r_at(k, x, i), m);
        let (p, q, s) = (k.w_o[i] - k.y[i], k.y[i] * k.a_r[i] + k.w_l[i], k.y[i] * k.s_r[i]);
        lemma_cong_mod(p, m);
        lemma_cong_mod(q, m);
        lemma_cong_mod(s, m);
        lemma_cong_mul(x, x, q % m, q, m);
        lemma_cong_mul(x3, x3, s % m, s, m);
        lemma_cong_add(p % m, p, x * (q % m), x * q, m);
        lemma_cong_add(p % m + x * (q % m), p + x * q, x3 * (s % m), x3 * s, m);
    }
    lemma_t_of_x(l, r, l1, l2, l3, r0, r1, r3, x);
    let t = t_poly(k, n);
    lemma_t_sum_mod(
        dot(l1, r0),
        dot(l2, r0) + dot(l1, r1),
        dot(l3, r0) + dot(l2, r1),
        dot(l3, r1) + dot(l1, r3),
        dot(l2, r3),
        dot(l3, r3),
        x,
    );
    lemma_cong_mod(t_sum(t.t1, t.t2, t.t3, t.t4, t.t5, t.t6, x), m);
}

/// The coefficients may be reduced.
proof fn lemma_t_sum_mod(t1: int, t2: int, t3: int, t4: int, t5: int, t6: int, x: int)
    ensures
        ({
            let m = fp_order();
            cong(
                t_sum(t1 % m, t2 % m, t3 % m, t4 % m, t5 % m, t6 % m, x),
                t_sum(t1, t2, t3, t4, t5, t6, x),
                m,
            )
        }),
{
    let m = fp_order();
    lemma_fp_order();
    let (x2, x3) = (x * x, (x * x) * x);
    lemma_cong_mod(t1, m);
    lemma_cong_mod(t2, m);
    lemma_cong_mod(t3, m);
    lemma_cong_mod(t4, m);
    lemma_cong_mod(t5, m);
    lemma_cong_mod(t6, m);
    lemma_cong_mul(x, x, t1 % m, t1, m);
    lemma_cong_mul(x2, x2, t2 % m, t2, m);
    lemma_cong_mul(x3, x3, t3 % m, t3, m);
    lemma_cong_mul(x3 * x, x3 * x, t4 % m, t4, m);
    lemma_cong_mul(x3 * x2, x3 * x2, t5 % m, t5, m);
    lemma_cong_mul(x3 * x3, x3 * x3, t6 % m, t6, m);
    lemma_cong_add(x * (t1 % m), x * t1, x2 * (t2 % m), x2 * t2, m);
    lemma_cong_add(x * (t1 % m) + x2 * (t2 % m), x * t1 + x2 * t2, x3 * (t3 % m), x3 * t3, m);
    let (a3, b3) = (x * (t1 % m) + x2 * (t2 % m) + x3 * (t3 % m), x * t1 + x2 * t2 + x3 * t3);
    lemma_cong_add(a3, b3, (x3 * x) * (t4 % m), (x3 * x) * t4, m);
    lemma_cong_add(
        a3 + (x3 * x) * (t4 % m),
        b3 + (x3 * x) * t4,
        (x3 * x2) * (t5 % m),
        (x3 * x2) * t5,
        m,
    );
    lemma_cong_add(
        a3 + (x3 * x) * (t4 % m) + (x3 * x2) * (t5 % m),
        b3 + (x3 * x) * t4 + (x3 * x2) * t5,
        (x3 * x3) * (t6 % m),
        (x3 * x3) * t6,
        m,
    );
}

/// `t_2` of a satisfied circuit.
proof fn lemma_t_2(c: Circuit, w: Values, bl: BlindingsView, n: nat, y: int, z: int)
    requires
        n >= c.n_mul,
        n <= usize::MAX,
        c.n_committed <= usize::MAX,
        circuit_ok(c),
        satisfied(c, w),
        vectors_len(prover_vectors(c, w, bl, n, y, z), n),
    ensures
        ({
            let k = prover_vectors(c, w, bl, n, y, z);
            cong(
                t_poly(k, n).t2,
                dot(w_v(c.constraints, c.n_committed, z), w.v) + (delta(k, n) + w_c(
                    c.constraints,
                    z,
                )),
                fp_order(),
            )
        }),
{
    let m = fp_order();
    lemma_fp_order();
    let k = prover_vectors(c, w, bl, n, y, z);
    lemma_pad(w, n, c.constraints, c.n_committed);
    let u = pad_values(w, n);
    let (l1, r0, r1) = (l_1(k, n), r_0(k, n), r_1(k, n));
    assert forall|i: int| 0 <= i < n implies cong(
        #[trigger] l1[i],
        k.a_l[i] + k.v[i] * k.w_r[i],
        m,
    ) by {
        lemma_cong_mod(k.a_l[i] + k.v[i] * k.w_r[i], m);
    }
    assert forall|i: int| 0 <= i < n implies cong(#[trigger] r0[i], k.w_o[i] - k.y[i], m) by {
        lemma_cong_mod(k.w_o[i] - k.y[i], m);
    }
    assert forall|i: int| 0 <= i < n implies cong(
        #[trigger] r1[i],
        k.y[i] * k.a_r[i] + k.w_l[i],
        m,
    ) by {
        lemma_cong_mod(k.y[i] * k.a_r[i] + k.w_l[i], m);
    }
    let wv = w_v(c.constraints, c.n_committed, z);
    let wc = w_c(c.constraints, z);
    assert forall|i: int| 0 <= i < n implies cong(
        #[trigger] k.w_l[i],
        flat(c.constraints, Variable::MultiplierLeft(i as usize), z),
        m,
    ) by {
        lemma_cong_mod(flat(c.constraints, Variable::MultiplierLeft(i as usize), z), m);
    }
    assert forall|i: int| 0 <= i < n implies cong(
        #[trigger] k.w_r[i],
        flat(c.constraints, Variable::MultiplierRight(i as usize), z),
        m,
    ) by {
        lemma_cong_mod(flat(c.constraints, Variable::MultiplierRight(i as usize), z), m);
    }
    assert forall|i: int| 0 <= i < n implies cong(
        #[trigger] k.w_o[i],
        flat(c.constraints, Variable::MultiplierOutput(i as usize), z),
        m,
    ) by {
        lemma_cong_mod(flat(c.constraints, Variable::MultiplierOutput(i as usize), z), m);
    }
    assert forall|j: int| 0 <= j < c.n_committed implies cong(
        #[trigger] wv[j],
        -flat(c.constraints, Variable::Committed(j as usize), z),
        m,
    ) by {
        lemma_cong_mod(-flat(c.constraints, Variable::Committed(j as usize), z), m);
    }
    lemma_cong_mod(-flat(c.constraints, Variable::One, z), m);
    lemma_t2(k, n, l1, r0, r1, c.constraints, u, c.n_committed, z, wv, wc);
    lemma_cong_mod(dot(k.a_o, r0) + dot(l1, r1), m);
}

/// Exponents scaled by one.
proof fn lemma_scaled_by_one(g: Seq<GoutPoint>)
    requires
        gouts_in_group(g),
    ensures
        scaled_logs(gout_logs(g), ones(g.len())) == gout_logs(g),
{
    let l = gout_logs(g);
    assert forall|i: int| 0 <= i < g.len() implies scaled_logs(l, ones(g.len()))[i] == l[i] by {
        assert(gout_in_group(g[i]));
        lemma_gout_eq(g[i], g[i]);
        let e = l[i];
        assert(e * 1 == e);
        lemma_mod_reduced(e, fp_order());
    }
    assert(scaled_logs(l, ones(g.len())) =~= l);
}

/// The inner product of `w_V` with the exponents of the commitments.
proof fn lemma_committed(
    wv: Seq<int>,
    logs: Seq<int>,
    v: Seq<int>,
    gammas: Seq<int>,
    lb: int,
    lbb: int,
)
    requires
        wv.len() == logs.len() == v.len() == gammas.len(),
        forall|j: int|
            0 <= j < v.len() ==> cong(#[trigger] logs[j], lb * v[j] + lbb * gammas[j], fp_order()),
    ensures
        cong(dot(wv, logs), lb * dot(wv, v) + lbb * dot(wv, gammas), fp_order()),
{
    lemma_dot_lin2(wv, logs, v, gammas, lb, lbb);
}

/// A sum of terms that are all multiples of `r·x²`.
proof fn lemma_v_scalars(logs: Seq<int>, wv: Seq<int>, x: int, r: int)
    requires
        logs.len() == wv.len(),
    ensures
        cong(dot(logs, v_scalars(wv, x, r)), (r * (x * x)) * dot(wv, logs), fp_order()),
{
    let m = fp_order();
    lemma_fp_order();
    let c = r * (x * x);
    let vs = v_scalars(wv, x, r);
    assert forall|j: int| 0 <= j < wv.len() implies cong(
        #[trigger] vs[j],
        c * wv[j] + 0 * wv[j],
        m,
    ) by {
        lemma_cong_mod(c * wv[j], m);
        let e = wv[j];
        assert(0 * e == 0);
    }
    lemma_dot_lin2(logs, vs, wv, wv, c, 0);
    lemma_dot_comm(logs, wv);
    let e = dot(logs, wv);
    assert(0 * e == 0);
}

/// The points of a check besides the generators, part by part.
pub proof fn lemma_points_dot(
    commitments: Seq<GoutPoint>,
    p: ProofView,
    us: Seq<int>,
    wv: Seq<int>,
    x: int,
    r: int,
)
    requires
        us.len() == p.l.len(),
        p.r.len() == p.l.len(),
        wv.len() == commitments.len(),
    ensures
        ({
            let (x2, x3) = (x * x, (x * x) * x);
            let pts = check_points(commitments, p);
            let sc = wire_scalars(x) + squares(us) + inverse_squares(us) + v_scalars(wv, x, r)
                + t_scalars(x, r);
            &&& pts.len() == sc.len()
            &&& cong(
                dot(gout_logs(pts), sc),
                (x * gout_log(p.a_i) + x2 * gout_log(p.a_o) + x3 * gout_log(p.s)) + rounds_sum(
                    us,
                    gout_logs(p.l),
                    gout_logs(p.r),
                ) + r * (x2 * dot(wv, gout_logs(commitments)) + x * gout_log(p.t_1) + x3 * gout_log(
                    p.t_3,
                ) + (x3 * x) * gout_log(p.t_4) + (x3 * x2) * gout_log(p.t_5) + (x3 * x3)
                    * gout_log(p.t_6)),
                fp_order(),
            )
        }),
{
    let m = fp_order();
    lemma_fp_order();
    let (x2, x3) = (x * x, (x * x) * x);
    let head = seq![p.a_i, p.a_o, p.s];
    let tail = seq![p.t_1, p.t_3, p.t_4, p.t_5, p.t_6];
    let pts = check_points(commitments, p);
    assert(p.r.take(p.l.len() as int) =~= p.r);
    let (hl, ll, rl, vl, tl) = (
        gout_logs(head),
        gout_logs(p.l),
        gout_logs(p.r),
        gout_logs(commitments),
        gout_logs(tail),
    );
    assert(gout_logs(pts) =~= hl + ll + rl + vl + tl);
    let (s1, s2, s3, s4, s5) = (
        wire_scalars(x),
        squares(us),
        inverse_squares(us),
        v_scalars(wv, x, r),
        t_scalars(x, r),
    );
    lemma_dot_concat(hl, s1, ll, s2);
    lemma_dot_concat(hl + ll, s1 + s2, rl, s3);
    lemma_dot_concat(hl + ll + rl, s1 + s2 + s3, vl, s4);
    lemma_dot_concat(hl + ll + rl + vl, s1 + s2 + s3 + s4, tl, s5);
    // A_I, A_O, S
    let (ai, ao, s) = (gout_log(p.a_i), gout_log(p.a_o), gout_log(p.s));
    assert(dot(hl, s1) == ai * x + ao * (x2 % m) + s * (x3 % m)) by {
        reveal_with_fuel(sigma, 4);
    }
    lemma_cong_mod(x2, m);
    lemma_cong_mod(x3, m);
    lemma_cong_mul(ao, ao, x2 % m, x2, m);
    lemma_cong_mul(s, s, x3 % m, x3, m);
    lemma_cong_add(ai * x, ai * x, ao * (x2 % m), ao * x2, m);
    lemma_cong_add(ai * x + ao * (x2 % m), ai * x + ao * x2, s * (x3 % m), s * x3, m);
    assert(ai * x == x * ai) by (nonlinear_arith);
    assert(ao * x2 == x2 * ao) by (nonlinear_arith);
    assert(s * x3 == x3 * s) by (nonlinear_arith);
    let d1 = x * ai + x2 * ao + x3 * s;
    assert(cong(dot(hl, s1), d1, m));
    // rounds
    lemma_rounds_dot(us, ll, rl);
    let d2 = rounds_sum(us, ll, rl);
    // committed values
    lemma_v_scalars(vl, wv, x, r);
    let wl = dot(wv, vl);
    assert((r * x2) * wl == r * (x2 * wl)) by (nonlinear_arith);
    // T
    let (c1, c3, c4, c5, c6) = (
        gout_log(p.t_1),
        gout_log(p.t_3),
        gout_log(p.t_4),
        gout_log(p.t_5),
        gout_log(p.t_6),
    );
    assert(dot(tl, s5) == c1 * ((r * x) % m) + c3 * ((r * x3) % m) + c4 * ((r * (x3 * x)) % m) + c5
        * ((r * (x3 * x2)) % m) + c6 * ((r * (x3 * x3)) % m)) by {
        reveal_with_fuel(sigma, 6);
    }
    lemma_t_term(c1, r, x);
    lemma_t_term(c3, r, x3);
    lemma_t_term(c4, r, x3 * x);
    lemma_t_term(c5, r, x3 * x2);
    lemma_t_term(c6, r, x3 * x3);
    let (e1, e3, e4, e5, e6) = (
        x * c1,
        x3 * c3,
        (x3 * x) * c4,
        (x3 * x2) * c5,
        (x3 * x3) * c6,
    );
    let (f1, f3, f4, f5, f6) = (
        c1 * ((r * x) % m),
        c3 * ((r * x3) % m),
        c4 * ((r * (x3 * x)) % m),
        c5 * ((r * (x3 * x2)) % m),
        c6 * ((r * (x3 * x3)) % m),
    );
    lemma_cong_add(f1, r * e1, f3, r * e3, m);
    lemma_cong_add(f1 + f3, r * e1 + r * e3, f4, r * e4, m);
    lemma_cong_add(f1 + f3 + f4, r * e1 + r * e3 + r * e4, f5, r * e5, m);
    lemma_cong_add(f1 + f3 + f4 + f5, r * e1 + r * e3 + r * e4 + r * e5, f6, r * e6, m);
    // together
    let e2 = x2 * wl;
    assert(r * (e2 + e1 + e3 + e4 + e5 + e6) == r * e2 + r * e1 + r * e3 + r * e4 + r * e5 + r * e6)
        by (nonlinear_arith);
    let dt = r * e1 + r * e3 + r * e4 + r * e5 + r * e6;
    let rounds = dot(ll, s2) + dot(rl, s3);
    lemma_cong_add(dot(hl, s1), d1, rounds, d2, m);
    lemma_cong_add(dot(hl, s1) + rounds, d1 + d2, dot(vl, s4), r * e2, m);
    lemma_cong_add(dot(hl, s1) + rounds + dot(vl, s4), d1 + d2 + r * e2, dot(tl, s5), dt, m);
}

proof fn lemma_t_term(c: int, r: int, y: int)
    ensures
        cong(c * ((r * y) % fp_order()), r * (y * c), fp_order()),
{
    let m = fp_order();
    lemma_fp_order();
    lemma_cong_mod(r * y, m);
    lemma_cong_mul(c, c, (r * y) % m, r * y, m);
    assert(c * (r * y) == r * (y * c)) by (nonlinear_arith);
}

/// The exponent of an honest proof's check, where the points have the exponents
/// that the protocol says.
proof fn lemma_honest_exponent(
    gens: BpGens,
    log: Seq<TranscriptEvent>,
    c: Circuit,
    w: Values,
    gammas: Seq<int>,
    bl: BlindingsView,
    p: R1CSProof,
    commitments: Seq<GoutPoint>,
)
    requires
        gens.well_formed(),
        gens.in_group(),
        pad_len(c.n_mul) <= gens.gens_capacity,
        c.n_committed <= usize::MAX,
        circuit_ok(c),
        satisfied(c, w),
        gammas.len() == c.n_committed,
        blindings_fit(bl, pad_len(c.n_mul)),
        proof_made(gens, log, c, w, gammas, bl, p),
        commitments.len() == c.n_committed,
        forall|j: int|
            0 <= j < c.n_committed ==> point_is(
                #[trigger] commitments[j],
                gout_log(gens.b@) * w.v[j] + gout_log(gens.b_blinding@) * gammas[j],
            ),
    ensures
        check_of(log, c, commitments, p@) is Some,
        check_fits(gens, check_of(log, c, commitments, p@)->Some_0),
        cong(
            check_exponent(gens, check_of(log, c, commitments, p@)->Some_0),
            0,
            fp_order(),
        ),
{
    reveal(proof_made);
    reveal(honest_proof);
    let m = fp_order();
    lemma_fp_order();
    let n = pad_len(c.n_mul);
    lemma_pad_len(c.n_mul);
    let pv = p@;
    let ch = challenges(log, c.n_committed, pv);
    let (x, r) = (ch.x, ch.r);
    let (x2, x3) = (x * x, (x * x) * x);
    let k = prover_vectors(c, w, bl, n, ch.y, ch.z);
    let pk = public_vectors(c.constraints, n, ch.y, ch.z);
    let t = t_poly(k, n);
    let (lb, lbb) = (gout_log(gens.b@), gout_log(gens.b_blinding@));
    let (g, h) = (bases(gouts(gens.g_vec@), n), bases(gouts(gens.h_vec@), n));
    let (lg, lh) = (gout_logs(g), gout_logs(h));
    let wv = w_v(c.constraints, c.n_committed, ch.z);
    let wc = w_c(c.constraints, ch.z);
    let s = s_vec(ch.us);
    let v = check_of(log, c, commitments, pv)->Some_0;
    lemma_vectors(c, w, bl, n, ch.y, ch.z);
    lemma_s_vec_len(ch.us);
    assert(s.len() == n);
    assert(g.len() == n && h.len() == n);
    // what the honest prover has sent
    assert(pv.t_x == poly6_at(t, x));
    let tb = blinding_poly(c, gammas, bl, ch.z);
    assert(pv.t_x_blinding == poly6_at(tb, x));
    assert(pv.e_blinding == e_blinding(bl, x));
    // the part of the inner-product argument
    let (lx, rx) = (l_seq(k, n, x), r_seq(k, n, x));
    assert forall|i: int| 0 <= i < n implies cong(#[trigger] lx[i], l_at(k, x, i), m) by {
        lemma_cong_mod(l_at(k, x, i), m);
    }
    assert forall|i: int| 0 <= i < n implies cong(#[trigger] rx[i], r_at(k, x, i), m) by {
        lemma_cong_mod(r_at(k, x, i), m);
    }
    assert forall|i: int| 0 <= i < n implies cong(
        #[trigger] v.g[i],
        g_scalar(k, x, pv.a, s, i),
        m,
    ) by {
        assert(g_scalar(k, x, pv.a, s, i) == g_scalar(pk, x, pv.a, s, i));
        lemma_cong_mod(g_scalar(pk, x, pv.a, s, i), m);
    }
    let sr = s.reverse();
    assert forall|i: int| 0 <= i < n implies cong(
        #[trigger] v.h[i],
        h_scalar(k, x, pv.b, sr, i),
        m,
    ) by {
        assert(h_scalar(k, x, pv.b, sr, i) == h_scalar(pk, x, pv.b, sr, i));
        lemma_cong_mod(h_scalar(pk, x, pv.b, sr, i), m);
    }
    lemma_g_side(k, n, lg, v.g, lx, s, x, pv.a);
    lemma_h_side(k, n, lh, v.h, rx, sr, x, pv.b);
    assert(gouts_in_group(g)) by {
        assert forall|i: int| 0 <= i < n implies #[trigger] gout_in_group(g[i]) by {
            assert(gout_in_group(gouts(gens.g_vec@)[i]));
        }
    }
    assert(gouts_in_group(h)) by {
        assert forall|i: int| 0 <= i < n implies #[trigger] gout_in_group(h[i]) by {
            assert(gout_in_group(gouts(gens.h_vec@)[i]));
        }
    }
    lemma_scaled_by_one(g);
    let sh = scaled_logs(lh, k.v);
    let q = gout_log(gout_scale(gens.b@, ch.w));
    let (ls, rs) = (gout_logs(pv.l), gout_logs(pv.r));
    let rounds = rounds_sum(ch.us, ls, rs);
    let (dl, dr, dlr) = (dot(lx, lg), dot(rx, sh), dot(lx, rx));
    let (sg, sh_) = (dot(s, lg), dot(sr, sh));
    assert(cong(
        dl + dr + q * dlr,
        pv.a * sg + pv.b * sh_ + q * (pv.a * pv.b) - rounds,
        m,
    ));
    lemma_t_x(k, n, x);
    lemma_cong_mod(x * bl.i + x2 * bl.o + x3 * bl.s, m);
    lemma_ipa_part(
        lb,
        lbb,
        x,
        ch.w,
        bl.i,
        bl.o,
        bl.s,
        pv.e_blinding,
        gout_log(pv.a_i),
        gout_log(pv.a_o),
        gout_log(pv.s),
        dot(lg, k.a_l),
        dot(lg, k.a_o),
        dot(lg, k.s_l),
        dot(lg, v.g),
        dot(lh, k.a_r),
        dot(lh, k.s_r),
        dot(lh, v.h),
        dl,
        dr,
        sg,
        sh_,
        rounds,
        q,
        dlr,
        pv.t_x,
        pv.a,
        pv.b,
    );
    // the part of t(x)
    lemma_t_2(c, w, bl, n, ch.y, ch.z);
    let vl = gout_logs(commitments);
    assert forall|j: int| 0 <= j < c.n_committed implies cong(
        #[trigger] vl[j],
        lb * w.v[j] + lbb * gammas[j],
        m,
    ) by {
        assert(point_is(commitments[j], lb * w.v[j] + lbb * gammas[j]));
    }
    lemma_committed(wv, vl, w.v, gammas, lb, lbb);
    let (vv, dwv, dwg) = (dot(wv, vl), dot(wv, w.v), dot(wv, gammas));
    lemma_cong_mod(dwg, m);
    lemma_cong_mul(lbb, lbb, dwg % m, dwg, m);
    lemma_cong_add(lb * dwv, lb * dwv, lbb * (dwg % m), lbb * dwg, m);
    let dc = delta(k, n) + wc;
    lemma_cong_mod(t_sum(t.t1, t.t2, t.t3, t.t4, t.t5, t.t6, x), m);
    lemma_cong_mod(t_sum(tb.t1, tb.t2, tb.t3, tb.t4, tb.t5, tb.t6, x), m);
    let (c1, c3, c4, c5, c6) = (
        gout_log(pv.t_1),
        gout_log(pv.t_3),
        gout_log(pv.t_4),
        gout_log(pv.t_5),
        gout_log(pv.t_6),
    );
    lemma_t_part(
        lb,
        lbb,
        x,
        t.t1,
        t.t2,
        t.t3,
        t.t4,
        t.t5,
        t.t6,
        tb.t1,
        tb.t2,
        tb.t3,
        tb.t4,
        tb.t5,
        tb.t6,
        c1,
        c3,
        c4,
        c5,
        c6,
        dwv,
        vv,
        dc,
        pv.t_x,
        pv.t_x_blinding,
    );
    // together
    lemma_points_dot(commitments, pv, ch.us, wv, x, r);
    let ipa_part = x * gout_log(pv.a_i) + x2 * gout_log(pv.a_o) + x3 * gout_log(pv.s) + dot(lg, v.g)
        + dot(lh, v.h) + rounds + lb * (ch.w * (pv.t_x - pv.a * pv.b)) + lbb * (-pv.e_blinding);
    let tail = x2 * vv + x * c1 + x3 * c3 + (x3 * x) * c4 + (x3 * x2) * c5 + (x3 * x3) * c6;
    let t_part = lb * (x2 * dc - pv.t_x) + lbb * (-pv.t_x_blinding) + tail;
    lemma_cong_mul(r, r, t_part, 0, m);
    assert(r * 0 == 0);
    lemma_cong_add(ipa_part, 0, r * t_part, 0, m);
    // the coefficients of B and of the blinding base
    assert(delta(k, n) == delta(pk, n)) by {
        lemma_sigma_eq(
            n,
            |i: int| (k.v[i] * k.w_r[i]) * k.w_l[i],
            |i: int| (pk.v[i] * pk.w_r[i]) * pk.w_l[i],
        );
    }
    let b_full = ch.w * (pv.t_x - pv.a * pv.b) + r * (x2 * dc - pv.t_x);
    let bb_full = -pv.e_blinding - r * pv.t_x_blinding;
    lemma_cong_mod(b_full, m);
    lemma_cong_mod(bb_full, m);
    lemma_cong_mul(lb, lb, v.b, b_full, m);
    lemma_cong_mul(lbb, lbb, v.b_blinding, bb_full, m);
    lemma_cong_add(lb * v.b, lb * b_full, lbb * v.b_blinding, lbb * bb_full, m);
    let gh = dot(lg, v.g) + dot(lh, v.h);
    lemma_cong_add(lb * v.b + lbb * v.b_blinding, lb * b_full + lbb * bb_full, gh, gh, m);
    let head = x * gout_log(pv.a_i) + x2 * gout_log(pv.a_o) + x3 * gout_log(pv.s);
    let pts = dot(gout_logs(v.points), v.scalars);
    lemma_cong_add(
        lb * v.b + lbb * v.b_blinding + gh,
        lb * b_full + lbb * bb_full + gh,
        pts,
        head + rounds + r * tail,
        m,
    );
    lemma_assemble(
        lb,
        lbb,
        r,
        ch.w * (pv.t_x - pv.a * pv.b),
        x2 * dc - pv.t_x,
        pv.e_blinding,
        pv.t_x_blinding,
        tail,
    );
    assert(v.points.len() == v.scalars.len());
    assert(v.g.len() == n && v.h.len() == n);
}

/// The two equations with the common bases taken together.
pub proof fn lemma_assemble(lb: int, lbb: int, r: int, a: int, d: int, e: int, t: int, tail: int)
    ensures
        lb * (a + r * d) + lbb * (-e - r * t) + r * tail == lb * a + lbb * (-e) + r * (lb * d + lbb
            * (-t) + tail),
{
    let (rd, rt) = (r * d, r * t);
    assert(lb * (a + rd) == lb * a + lb * rd) by (nonlinear_arith);
    assert(lbb * (-e - rt) == lbb * (-e) + lbb * (-rt)) by (nonlinear_arith);
    let (p, q) = (lb * d, lbb * (-t));
    assert(r * (p + q + tail) == r * p + r * q + r * tail) by (nonlinear_arith);
    assert(lb * (r * d) == r * (lb * d)) by (nonlinear_arith);
    assert(lbb * (-(r * t)) == r * (lbb * (-t))) by (nonlinear_arith);
}

/// An honest proof passes its check: for generators of the prime-order group and a
/// circuit that the prover's values satisfy, the check of the proof fits and
/// vanishes.
pub proof fn law_honest_proof_verifies(
    gens: BpGens,
    log: Seq<TranscriptEvent>,
    c: Circuit,
    w: Values,
    gammas: Seq<int>,
    bl: BlindingsView,
    p: R1CSProof,
    commitments: Seq<GoutPoint>,
)
    requires
        gens.well_formed(),
        gens.in_group(),
        pad_len(c.n_mul) <= gens.gens_capacity,
        c.n_committed <= usize::MAX,
        circuit_ok(c),
        satisfied(c, w),
        gammas.len() == c.n_committed,
        blindings_fit(bl, pad_len(c.n_mul)),
        proof_made(gens, log, c, w, gammas, bl, p),
        commitments.len() == c.n_committed,
        forall|j: int|
            0 <= j < c.n_committed ==> point_is(
                #[trigger] commitments[j],
                gout_log(gens.b@) * w.v[j] + gout_log(gens.b_blinding@) * gammas[j],
            ),
    ensures
        rounds_fit(p.ipp.l_vec@.len(), pad_len(c.n_mul)),
        p.ipp.r_vec@.len() == p.ipp.l_vec@.len(),
        check_of(log, c, commitments, p@) matches Some(v) && {
            &&& check_fits(gens, v)
            &&& gouts_in_group(v.points)
            &&& check_vanishes(gens, v)
        },
{
    lemma_honest_exponent(gens, log, c, w, gammas, bl, p, commitments);
    reveal(proof_made);
    let v = check_of(log, c, commitments, p@)->Some_0;
    lemma_check_exponent(gens, v);
    let k = p.ipp.l_vec@.len();
    assert(pad_len(c.n_mul) == pow2(k));
    if k >= 64 {
        lemma_large_power(k);
    }
    assert(gouts_in_group(v.points)) by {
        let pv = p@;
        let (n1, n2) = (3 + pv.l.len(), 3 + pv.l.len() + pv.r.len());
        let n3 = n2 + commitments.len();
        assert(pv.r.take(pv.l.len() as int) =~= pv.r);
        assert forall|i: int| 0 <= i < v.points.len() implies #[trigger] gout_in_group(
            v.points[i],
        ) by {
            if i < 3 {
            } else if i < n1 {
                assert(gout_in_group(pv.l[i - 3]));
            } else if i < n2 {
                assert(gout_in_group(pv.r[i - n1]));
            } else if i < n3 {
                assert(point_is(
                    commitments[i - n2],
                    gout_log(gens.b@) * w.v[i - n2] + gout_log(gens.b_blinding@) * gammas[i - n2],
                ));
            } else {
                assert(i - n3 == 0 || i - n3 == 1 || i - n3 == 2 || i - n3 == 3 || i - n3 == 4);
            }
        }
    }
}

proof fn lemma_large_power(k: nat)
    requires
        k >= 64,
    ensures
        pow2(k) > u64::MAX,
    decreases k,
{
    if k == 64 {
        vstd::arithmetic::power2::lemma2_to64();
    } else {
        lemma_large_power((k - 1) as nat);
        lemma_pow2_unfold(k);
    }
}

// ─── batches ────────────────────────────────────────────────────────────────

/// A combination of checks that fit fits.
pub proof fn lemma_combined_fits(gens: BpGens, checks: Seq<CheckView>, weights: Seq<int>)
    requires
        forall|i: int| 0 <= i < checks.len() ==> check_fits(gens, #[trigger] checks[i]),
    ensures
        check_fits(gens, combined_check(checks, weights)),
    decreases checks.len(),
{
    if checks.len() > 0 {
        let rest = checks.drop_last();
        assert forall|i: int| 0 <= i < rest.len() implies check_fits(gens, #[trigger] rest[i]) by {
            assert(rest[i] == checks[i]);
        }
        lemma_combined_fits(gens, rest, weights);
        assert(check_fits(gens, checks[checks.len() - 1]));
    }
}

/// The points of a combined check are those of the checks.
pub proof fn lemma_combined_in_group(checks: Seq<CheckView>, weights: Seq<int>)
    requires
        forall|i: int| 0 <= i < checks.len() ==> gouts_in_group((#[trigger] checks[i]).points),
    ensures
        gouts_in_group(combined_check(checks, weights).points),
    decreases checks.len(),
{
    if checks.len() > 0 {
        let rest = checks.drop_last();
        assert forall|i: int| 0 <= i < rest.len() implies gouts_in_group(
            (#[trigger] rest[i]).points,
        ) by {
            assert(rest[i] == checks[i]);
        }
        lemma_combined_in_group(rest, weights);
        let acc = combined_check(rest, weights);
        let v = checks[checks.len() - 1];
        let w = combined_check(checks, weights);
        assert(gouts_in_group(v.points));
        assert forall|i: int| 0 <= i < w.points.len() implies #[trigger] gout_in_group(
            w.points[i],
        ) by {
            if i < acc.points.len() {
                assert(gout_in_group(acc.points[i]));
            } else {
                assert(gout_in_group(v.points[i - acc.points.len()]));
            }
        }
    }
}

/// The empty check vanishes.
pub proof fn lemma_empty_vanishes(gens: BpGens)
    requires
        gens.well_formed(),
    ensures
        check_vanishes(gens, empty_check()),
{
    lemma_check_exponent(gens, empty_check());
    reveal_with_fuel(sigma, 1);
    let (a, b) = (gout_log(gens.b@), gout_log(gens.b_blinding@));
    assert(a * 0 == 0 && b * 0 == 0);
}

/// The inner product with a padded vector.
proof fn lemma_dot_entries(l: Seq<int>, v: Seq<int>, n: nat)
    requires
        v.len() <= n <= l.len(),
    ensures
        dot(l.take(v.len() as int), v) == sigma(n, |i: int| l[i] * entry(v, i)),
{
    let k = v.len();
    let f = |i: int| l[i] * entry(v, i);
    lemma_sigma_split(k, n, f);
    let t = l.take(k as int);
    lemma_sigma_eq(k, f, |i: int| t[i] * v[i]);
    let g = |i: int| f(k + i);
    assert forall|i: int| 0 <= i < n - k implies #[trigger] g(i) == 0 by {
        let x = l[k + i];
        assert(x * 0 == 0);
    }
    lemma_sigma_zero((n - k) as nat, g);
    lemma_sigma_eq((n - k) as nat, g, |i: int| f(k + i));
}

/// Inner products are linear in the coefficients of a check.
proof fn lemma_dot_scaled_sum(l: Seq<int>, acc: Seq<int>, v: Seq<int>, rho: int)
    requires
        acc.len() <= l.len(),
        v.len() <= l.len(),
    ensures
        ({
            let s = scaled_sum(acc, v, rho);
            cong(
                dot(l.take(s.len() as int), s),
                dot(l.take(acc.len() as int), acc) + rho * dot(l.take(v.len() as int), v),
                fp_order(),
            )
        }),
{
    let m = fp_order();
    lemma_fp_order();
    let s = scaled_sum(acc, v, rho);
    let n = s.len();
    lemma_dot_entries(l, acc, n);
    lemma_dot_entries(l, v, n);
    let fa = |i: int| l[i] * entry(acc, i);
    let fv = |i: int| l[i] * entry(v, i);
    let fr = |i: int| rho * fv(i);
    let sum = |i: int| fa(i) + fr(i);
    let t = l.take(n as int);
    let fs = |i: int| t[i] * s[i];
    assert forall|i: int| 0 <= i < n implies cong(#[trigger] fs(i), sum(i), m) by {
        let (x, a, b) = (l[i], entry(acc, i), entry(v, i));
        let rb = rho * b;
        lemma_cong_mod(a + rb, m);
        lemma_cong_mul(x, x, (a + rb) % m, a + rb, m);
        assert(x * (a + rb) == x * a + x * rb) by (nonlinear_arith);
        assert(x * (rho * b) == rho * (x * b)) by (nonlinear_arith);
    }
    lemma_sigma_cong(n, fs, sum, m);
    lemma_sigma_add(n, fa, fr);
    lemma_sigma_scale(n, rho, fv);
    lemma_sigma_eq(n, fs, |i: int| t[i] * s[i]);
    lemma_sigma_eq(n, fa, |i: int| l[i] * entry(acc, i));
    lemma_sigma_eq(n, fv, |i: int| l[i] * entry(v, i));
}

/// The exponent of a check is linear in the check.
proof fn lemma_absorbed(gens: BpGens, acc: CheckView, v: CheckView, rho: int)
    requires
        gens.well_formed(),
        check_fits(gens, acc),
        check_fits(gens, v),
    ensures
        cong(
            check_exponent(gens, absorbed(acc, v, rho)),
            check_exponent(gens, acc) + rho * check_exponent(gens, v),
            fp_order(),
        ),
{
    let m = fp_order();
    lemma_fp_order();
    let w = absorbed(acc, v, rho);
    let (lb, lbb) = (gout_log(gens.b@), gout_log(gens.b_blinding@));
    let (g, h) = (gouts(gens.g_vec@), gouts(gens.h_vec@));
    let (lg, lh) = (gout_logs(g), gout_logs(h));
    // B and the blinding base
    lemma_scalar_term(lb, acc.b, v.b, rho);
    lemma_scalar_term(lbb, acc.b_blinding, v.b_blinding, rho);
    // G and H
    lemma_dot_scaled_sum(lg, acc.g, v.g, rho);
    lemma_dot_scaled_sum(lh, acc.h, v.h, rho);
    assert(gout_logs(bases(g, w.g.len())) =~= lg.take(w.g.len() as int));
    assert(gout_logs(bases(g, acc.g.len())) =~= lg.take(acc.g.len() as int));
    assert(gout_logs(bases(g, v.g.len())) =~= lg.take(v.g.len() as int));
    assert(gout_logs(bases(h, w.h.len())) =~= lh.take(w.h.len() as int));
    assert(gout_logs(bases(h, acc.h.len())) =~= lh.take(acc.h.len() as int));
    assert(gout_logs(bases(h, v.h.len())) =~= lh.take(v.h.len() as int));
    // the other points
    let (pa, pv) = (gout_logs(acc.points), gout_logs(v.points));
    let sv = scaled_sum(Seq::empty(), v.scalars, rho);
    assert(gout_logs(w.points) =~= pa + pv);
    lemma_dot_concat(pa, acc.scalars, pv, sv);
    lemma_dot_scaled_sum(pv, Seq::empty(), v.scalars, rho);
    assert(pv.take(sv.len() as int) =~= pv);
    assert(pv.take(v.scalars.len() as int) =~= pv);
    assert(dot(pv.take(0), Seq::<int>::empty()) == 0) by {
        reveal_with_fuel(sigma, 1);
    }
    // together
    let (a1, a2, a3, a4, a5) = (
        lb * acc.b,
        lbb * acc.b_blinding,
        dot(lg.take(acc.g.len() as int), acc.g),
        dot(lh.take(acc.h.len() as int), acc.h),
        dot(pa, acc.scalars),
    );
    let (v1, v2, v3, v4, v5) = (
        lb * v.b,
        lbb * v.b_blinding,
        dot(lg.take(v.g.len() as int), v.g),
        dot(lh.take(v.h.len() as int), v.h),
        dot(pv, v.scalars),
    );
    let (w1, w2, w3, w4, w5) = (
        lb * w.b,
        lbb * w.b_blinding,
        dot(lg.take(w.g.len() as int), w.g),
        dot(lh.take(w.h.len() as int), w.h),
        dot(pa, acc.scalars) + dot(pv, sv),
    );
    lemma_cong_add(a5, a5, dot(pv, sv), rho * v5, m);
    lemma_cong_add(w1, a1 + rho * v1, w2, a2 + rho * v2, m);
    lemma_cong_add(w1 + w2, a1 + rho * v1 + (a2 + rho * v2), w3, a3 + rho * v3, m);
    lemma_cong_add(
        w1 + w2 + w3,
        a1 + rho * v1 + (a2 + rho * v2) + (a3 + rho * v3),
        w4,
        a4 + rho * v4,
        m,
    );
    lemma_cong_add(
        w1 + w2 + w3 + w4,
        a1 + rho * v1 + (a2 + rho * v2) + (a3 + rho * v3) + (a4 + rho * v4),
        w5,
        a5 + rho * v5,
        m,
    );
    assert(rho * (v1 + v2 + v3 + v4 + v5) == rho * v1 + rho * v2 + rho * v3 + rho * v4 + rho * v5)
        by (nonlinear_arith);
}

proof fn lemma_scalar_term(l: int, a: int, b: int, rho: int)
    ensures
        cong(l * ((a + rho * b) % fp_order()), l * a + rho * (l * b), fp_order()),
{
    let m = fp_order();
    lemma_fp_order();
    let rb = rho * b;
    lemma_cong_mod(a + rb, m);
    lemma_cong_mul(l, l, (a + rb) % m, a + rb, m);
    assert(l * (a + rb) == l * a + l * rb) by (nonlinear_arith);
    assert(l * (rho * b) == rho * (l * b)) by (nonlinear_arith);
}

/// Checks that pass on their own pass together, whatever the weights: a batch that
/// fails has at least one check that fails.
pub proof fn law_batch_of_passing_checks_passes(
    gens: BpGens,
    checks: Seq<CheckView>,
    weights: Seq<int>,
)
    requires
        gens.well_formed(),
        gens.in_group(),
        forall|i: int| 0 <= i < checks.len() ==> check_fits(gens, #[trigger] checks[i]),
        forall|i: int| 0 <= i < checks.len() ==> gouts_in_group((#[trigger] checks[i]).points),
        forall|i: int| 0 <= i < checks.len() ==> check_vanishes(gens, #[trigger] checks[i]),
    ensures
        check_fits(gens, combined_check(checks, weights)),
        gouts_in_group(combined_check(checks, weights).points),
        check_vanishes(gens, combined_check(checks, weights)),
    decreases checks.len(),
{
    let m = fp_order();
    lemma_fp_order();
    lemma_combined_fits(gens, checks, weights);
    if checks.len() == 0 {
        lemma_empty_vanishes(gens);
    } else {
        let rest = checks.drop_last();
        assert forall|i: int| 0 <= i < rest.len() implies check_fits(gens, #[trigger] rest[i])
            && gouts_in_group(rest[i].points) && check_vanishes(gens, rest[i]) by {
            assert(rest[i] == checks[i]);
        }
        law_batch_of_passing_checks_passes(gens, rest, weights);
        let acc = combined_check(rest, weights);
        let v = checks.last();
        let rho = weights[checks.len() - 1];
        assert(v == checks[checks.len() - 1]);
        assert(check_fits(gens, v) && gouts_in_group(v.points) && check_vanishes(gens, v));
        lemma_absorbed(gens, acc, v, rho);
        lemma_check_exponent(gens, acc);
        lemma_check_exponent(gens, v);
        let w = combined_check(checks, weights);
        lemma_check_exponent(gens, w);
        let (ea, ev) = (check_exponent(gens, acc), check_exponent(gens, v));
        lemma_cong_mul(rho, rho, ev, 0, m);
        assert(rho * 0 == 0);
        lemma_cong_add(ea, 0, rho * ev, 0, m);
    }
    lemma_combined_in_group(checks, weights);
}

/// `∑ weights[i] · e_i` for the exponents `e_i` of the checks.
pub open spec fn batch_exponent(gens: BpGens, checks: Seq<CheckView>, weights: Seq<int>) -> int {
    sigma(checks.len(), |i: int| weights[i] * check_exponent(gens, checks[i]))
}

/// The exponent of a combined check is the weighted sum of the exponents.
pub proof fn lemma_combined_exponent(gens: BpGens, checks: Seq<CheckView>, weights: Seq<int>)
    requires
        gens.well_formed(),
        forall|i: int| 0 <= i < checks.len() ==> check_fits(gens, #[trigger] checks[i]),
    ensures
        check_fits(gens, combined_check(checks, weights)),
        cong(
            check_exponent(gens, combined_check(checks, weights)),
            batch_exponent(gens, checks, weights),
            fp_order(),
        ),
        check_vanishes(gens, combined_check(checks, weights)) <==> cong(
            batch_exponent(gens, checks, weights),
            0,
            fp_order(),
        ),
    decreases checks.len(),
{
    lemma_fp_order();
    lemma_combined_fits(gens, checks, weights);
    lemma_check_exponent(gens, combined_check(checks, weights));
    if checks.len() == 0 {
        lemma_empty_vanishes(gens);
    } else {
        let rest = checks.drop_last();
        let n = (checks.len() - 1) as nat;
        assert forall|i: int| 0 <= i < rest.len() implies check_fits(gens, #[trigger] rest[i]) by {
            assert(rest[i] == checks[i]);
        }
        lemma_combined_exponent(gens, rest, weights);
        let acc = combined_check(rest, weights);
        let (v, rho) = (checks.last(), weights[checks.len() - 1]);
        assert(check_fits(gens, checks[checks.len() - 1]));
        lemma_absorbed(gens, acc, v, rho);
        lemma_sigma_eq(
            n,
            |i: int| weights[i] * check_exponent(gens, checks[i]),
            |i: int| weights[i] * check_exponent(gens, rest[i]),
        );
        let ev = rho * check_exponent(gens, v);
        lemma_cong_add(
            check_exponent(gens, acc),
            batch_exponent(gens, rest, weights),
            ev,
            ev,
            fp_order(),
        );
    }
}

/// The weighted sum, with the part of check `j` set apart.
pub proof fn lemma_weight_apart(gens: BpGens, checks: Seq<CheckView>, weights: Seq<int>, j: int)
    requires
        0 <= j < checks.len(),
        weights.len() == checks.len(),
    ensures
        batch_exponent(gens, checks, weights) == batch_exponent(gens, checks, weights.update(j, 0))
            + weights[j] * check_exponent(gens, checks[j]),
{
    let n = checks.len();
    let w0 = weights.update(j, 0);
    let f = |i: int| weights[i] * check_exponent(gens, checks[i]);
    let g = |i: int| w0[i] * check_exponent(gens, checks[i]);
    let (e, x) = (check_exponent(gens, checks[j]), weights[j]);
    assert(0 * e == 0);
    lemma_sigma_split((j + 1) as nat, n, f);
    lemma_sigma_split((j + 1) as nat, n, g);
    lemma_sigma_eq(j as nat, f, g);
    lemma_sigma_eq((n - j - 1) as nat, |i: int| f(j + 1 + i), |i: int| g(j + 1 + i));
}

/// Weight `j` of a batch is a root of a linear polynomial that is not zero: its
/// coefficients are what the other checks come to and the exponent of check `j`.
pub open spec fn lucky_weight(
    gens: BpGens,
    checks: Seq<CheckView>,
    weights: Seq<int>,
    j: int,
) -> bool {
    let e = check_exponent(gens, checks[j]);
    let f = seq![batch_exponent(gens, checks, weights.update(j, 0)), e];
    &&& 0 <= j < checks.len()
    &&& !cong(e, 0, fp_order())
    &&& cong(poly_eval(f, weights[j]), 0, fp_order())
}

/// A batch that passes although check `j` does not pass on its own has been lucky with
/// the weight of that check: it is a root of a polynomial that is not zero and that the
/// other weights and the checks determine. No other value of that weight would have
/// done.
pub proof fn law_passing_batch_with_a_bad_check_is_lucky(
    gens: BpGens,
    checks: Seq<CheckView>,
    weights: Seq<int>,
    j: int,
)
    requires
        gens.well_formed(),
        weights.len() == checks.len(),
        0 <= j < checks.len(),
        forall|i: int| 0 <= i < checks.len() ==> check_fits(gens, #[trigger] checks[i]),
        !check_vanishes(gens, checks[j]),
        check_vanishes(gens, combined_check(checks, weights)),
    ensures
        lucky_weight(gens, checks, weights, j),
        is_prime(fp_order()) ==> forall|x: int|
            check_vanishes(gens, #[trigger] combined_check(checks, weights.update(j, x))) ==> cong(
                x,
                weights[j],
                fp_order(),
            ),
{
    let p = fp_order();
    lemma_fp_order();
    let e = check_exponent(gens, checks[j]);
    lemma_check_exponent(gens, checks[j]);
    lemma_combined_exponent(gens, checks, weights);
    lemma_weight_apart(gens, checks, weights, j);
    let r = batch_exponent(gens, checks, weights.update(j, 0));
    let y = weights[j];
    lemma_linear(r, e, y);
    if is_prime(p) {
        assert forall|x: int|
            check_vanishes(gens, #[trigger] combined_check(checks, weights.update(j, x))) implies cong(
            x,
            y,
            p,
        ) by {
            let wx = weights.update(j, x);
            lemma_combined_exponent(gens, checks, wx);
            lemma_weight_apart(gens, checks, wx, j);
            assert(wx.update(j, 0) =~= weights.update(j, 0));
            // (x − y)·e = 0
            lemma_cong_sub(r + x * e, 0, r + y * e, 0, p);
            assert(r + x * e - (r + y * e) == (x - y) * e) by (nonlinear_arith);
            lemma_mod_reduced(0, p);
            assert(((x - y) * e) % p == 0);
            lemma_cong_add(x - y, 0, y, y, p);
        }
    }
}

/// The value of a linear polynomial.
proof fn lemma_linear(a: int, b: int, z: int)
    ensures
        poly_eval(seq![a, b], z) == a + z * b,
{
    let e = Seq::<int>::empty();
    lemma_poly_eval_cons(b, e, z);
    assert(seq![b] + e =~= seq![b]);
    lemma_poly_eval_cons(a, seq![b], z);
    assert(seq![a] + seq![b] =~= seq![a, b]);
    assert(0 * z == 0);
    assert(b * z == z * b) by (nonlinear_arith);
}

} // verus!
