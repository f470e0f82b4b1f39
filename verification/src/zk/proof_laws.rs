//! What a proof of a constraint system says of the values behind it: the verifier's check is
//! two equations, and values that do not satisfy the circuit meet them for few challenges
//! only.
use crate::algebra::{
    cong, dot, is_prime, lemma_cong_add, lemma_cong_mod, lemma_cong_mul, lemma_cong_sub,
    lemma_poly_eval_cons, lemma_sigma_cong, lemma_sigma_eq, lemma_sigma_split, lemma_sigma_zero,
    poly_eval, sigma,
};
use crate::field::{fp_order, le_bytes, lemma_fp_order};
use crate::lagrange::invertible;
use crate::poly_laws::{incongruent, law_few_roots, vanishes};
use crate::zk::bp_algebra::{
    delta, g_scalar, h_scalar, lemma_horner6, lemma_pad_values, lemma_t2_of_values, pad, pad_values,
    t_sum,
};
use crate::zk::bp_laws::{
    check_exponent, lemma_assemble, lemma_points_dot, lemma_t_x, lemma_vectors,
};
use crate::zk::bp_protocol::{
    bases, challenges, check_of, honest_proof, l_1, l_seq, pad_len, prover_vectors, public_vectors,
    r_0, r_1, r_seq, t_poly, w_c, w_v, BlindingsView, CheckView, ProofView,
};
use crate::zk::bp_r1cs::{blindings_fit, proof_made, R1CSProof};
use crate::zk::circuit_laws::{constraint_values, gate_values, lemma_flat_eval};
use crate::zk::r1cs::{circuit_ok, flat, lc_eval, lc_in, values_fit, Circuit, Values, Variable};
use vstd::arithmetic::power::pow;
use crate::zk::generators::BpGens;
use crate::transcript::{transcript_challenge, TranscriptEvent};
use crate::curves::{gout_log, gout_logs, gout_msm, gout_scale, gout_sum, gouts, GoutPoint};
use crate::zk::ipa::{rounds_sum, s_vec};
use crate::zk::challenge_laws::{
    draw, drawn, law_proof_challenges, opening_events, round_events, sent, wire_events,
};
use vstd::prelude::*;
use vstd::string::StringSliceAdditionalSpecFns;

verus! {

/// What the gates and the constraints of a circuit are off by, weighted with the powers of
/// `y` and `z`.
pub open spec fn circuit_error(c: Circuit, w: Values, y: int, z: int) -> int {
    poly_eval(gate_values(w), y) + z * poly_eval(constraint_values(c.constraints, w), z)
}

/// The gates of padded values are off by what those of the values are.
proof fn lemma_gate_sum(w: Values, n: nat, y: int)
    requires
        w.a_l.len() == w.a_r.len() == w.a_o.len(),
        w.a_l.len() <= n,
    ensures
        ({
            let u = pad_values(w, n);
            cong(
                sigma(
                    n,
                    |i: int| (u.a_l[i] * u.a_r[i] - u.a_o[i]) * (pow(y, i as nat) % fp_order()),
                ),
                poly_eval(gate_values(w), y),
                fp_order(),
            )
        }),
{
    let p = fp_order();
    lemma_fp_order();
    let u = pad_values(w, n);
    let k = w.a_o.len();
    let gs = gate_values(w);
    let f = |i: int| (u.a_l[i] * u.a_r[i] - u.a_o[i]) * (pow(y, i as nat) % p);
    let g = |i: int| gs[i] * pow(y, i as nat);
    lemma_sigma_split(k, n, f);
    let tail = |i: int| f(k + i);
    assert forall|i: int| 0 <= i < n - k implies #[trigger] tail(i) == 0 by {
        let e = pow(y, (k + i) as nat) % p;
        assert(0int * 0int == 0);
        assert(0 * e == 0);
    }
    lemma_sigma_zero((n - k) as nat, tail);
    lemma_sigma_eq((n - k) as nat, tail, |i: int| f(k + i));
    assert forall|i: int| 0 <= i < k implies cong(#[trigger] f(i), g(i), p) by {
        let (e, q) = (gs[i], pow(y, i as nat));
        lemma_cong_mod(q, p);
        lemma_cong_mul(e, e, q % p, q, p);
    }
    crate::algebra::lemma_sigma_cong(k, f, g, p);
    lemma_sigma_eq(k, g, |i: int| gs[i] * pow(y, i as nat));
}

/// For any values of the wires, satisfying or not, the coefficient `t_2` of
/// `⟨l(x), r(x)⟩` is what the verifier expects of it, and what the gates and the constraints
/// are off by.
pub proof fn law_t2_measures_the_circuit(
    c: Circuit,
    w: Values,
    bl: BlindingsView,
    n: nat,
    y: int,
    z: int,
)
    requires
        c.n_mul <= n <= usize::MAX,
        c.n_committed <= usize::MAX,
        circuit_ok(c),
        values_fit(c, w),
        blindings_fit(bl, n),
        invertible(y),
    ensures
        ({
            let k = prover_vectors(c, w, bl, n, y, z);
            cong(
                t_poly(k, n).t2,
                dot(w_v(c.constraints, c.n_committed, z), w.v) + (delta(k, n) + w_c(
                    c.constraints,
                    z,
                )) + circuit_error(c, w, y, z),
                fp_order(),
            )
        }),
{
    let m = fp_order();
    lemma_fp_order();
    let k = prover_vectors(c, w, bl, n, y, z);
    lemma_vectors(c, w, bl, n, y, z);
    lemma_pad_values(w, n, c.constraints, c.n_committed);
    let u = pad_values(w, n);
    let (l1, r0, r1) = (l_1(k, n), r_0(k, n), r_1(k, n));
    assert forall|i: int| 0 <= i < n implies cong(
        #[trigger] l1[i],
        k.a_l[i] + k.v[i] * k.w_r[i],
        m,
    ) by {
        lemma_cong_mod(k.a_l[i] + k.v[i] * k.w_r[i], m);
    }
    assert forall|i: int| 0 <= i < n implies cong(#[trigger] r0[i], k.w_o[i] - k.y[i], m) by {
        lemma_cong_mod(k.w_o[i] - k.y[i], m);
    }
    assert forall|i: int| 0 <= i < n implies cong(
        #[trigger] r1[i],
        k.y[i] * k.a_r[i] + k.w_l[i],
        m,
    ) by {
        lemma_cong_mod(k.y[i] * k.a_r[i] + k.w_l[i], m);
    }
    let wv = w_v(c.constraints, c.n_committed, z);
    let wc = w_c(c.constraints, z);
    assert forall|i: int| 0 <= i < n implies cong(
        #[trigger] k.w_l[i],
        flat(c.constraints, Variable::MultiplierLeft(i as usize), z),
        m,
    ) by {
        lemma_cong_mod(flat(c.constraints, Variable::MultiplierLeft(i as usize), z), m);
    }
    assert forall|i: int| 0 <= i < n implies cong(
        #[trigger] k.w_r[i],
        flat(c.constraints, Variable::MultiplierRight(i as usize), z),
        m,
    ) by {
        lemma_cong_mod(flat(c.constraints, Variable::MultiplierRight(i as usize), z), m);
    }
    assert forall|i: int| 0 <= i < n implies cong(
        #[trigger] k.w_o[i],
        flat(c.constraints, Variable::MultiplierOutput(i as usize), z),
        m,
    ) by {
        lemma_cong_mod(flat(c.constraints, Variable::MultiplierOutput(i as usize), z), m);
    }
    assert forall|j: int| 0 <= j < c.n_committed implies cong(
        #[trigger] wv[j],
        -flat(c.constraints, Variable::Committed(j as usize), z),
        m,
    ) by {
        lemma_cong_mod(-flat(c.constraints, Variable::Committed(j as usize), z), m);
    }
    lemma_cong_mod(-flat(c.constraints, Variable::One, z), m);
    assert forall|q: int| 0 <= q < c.constraints.len() implies lc_in(
        #[trigger] c.constraints[q],
        n,
        c.n_committed,
    ) by {
        assert(lc_in(c.constraints[q], n, c.n_committed) && lc_eval(c.constraints[q], u) == lc_eval(
            c.constraints[q],
            w,
        ));
    }
    lemma_t2_of_values(k, n, l1, r0, r1, c.constraints, u, c.n_committed, z, wv, wc);
    lemma_cong_mod(dot(k.a_o, r0) + dot(l1, r1), m);
    // the gates
    lemma_gate_sum(w, n, y);
    let ge = |i: int| (k.a_l[i] * k.a_r[i] - k.a_o[i]) * k.y[i];
    lemma_sigma_eq(
        n,
        ge,
        |i: int| (u.a_l[i] * u.a_r[i] - u.a_o[i]) * (pow(y, i as nat) % fp_order()),
    );
    lemma_sigma_eq(n, ge, |i: int| (k.a_l[i] * k.a_r[i] - k.a_o[i]) * k.y[i]);
    // the constraints
    lemma_flat_eval(c.constraints, u, z);
    let (vu, vw) = (constraint_values(c.constraints, u), constraint_values(c.constraints, w));
    assert(vu =~= vw) by {
        assert forall|q: int| 0 <= q < vu.len() implies vu[q] == vw[q] by {
            assert(lc_eval(c.constraints[q], u) == lc_eval(c.constraints[q], w));
            crate::zk::circuit_laws::lemma_lc_eval_sum(c.constraints[q], u);
            crate::zk::circuit_laws::lemma_lc_eval_sum(c.constraints[q], w);
        }
    }
    let rest = dot(wv, w.v) + wc + delta(k, n) + z * poly_eval(vw, z);
    lemma_cong_add(rest, rest, sigma(n, ge), poly_eval(gate_values(w), y), m);
}

/// Values that violate a constraint are off for all but few challenges `z`: for no more than
/// there are constraints.
pub proof fn law_few_challenges_hide_a_constraint(
    c: Circuit,
    w: Values,
    y: int,
    zs: Seq<int>,
    bad: int,
)
    requires
        is_prime(fp_order()),
        0 <= bad < c.constraints.len(),
        !cong(lc_eval(c.constraints[bad], w), 0, fp_order()),
        incongruent(zs, fp_order()),
        forall|i: int|
            0 <= i < zs.len() ==> cong(circuit_error(c, w, y, #[trigger] zs[i]), 0, fp_order()),
    ensures
        zs.len() <= c.constraints.len(),
{
    let p = fp_order();
    let vs = constraint_values(c.constraints, w);
    let g = poly_eval(gate_values(w), y);
    let d = seq![g] + vs;
    crate::zk::circuit_laws::lemma_lc_eval_sum(c.constraints[bad], w);
    assert(d[bad + 1] == vs[bad]);
    assert(!vanishes(d, p));
    assert forall|i: int| 0 <= i < zs.len() implies cong(poly_eval(d, #[trigger] zs[i]), 0, p) by {
        lemma_poly_eval_cons(g, vs, zs[i]);
        let (e, z) = (poly_eval(vs, zs[i]), zs[i]);
        assert(e * z == z * e) by (nonlinear_arith);
        assert(cong(circuit_error(c, w, y, zs[i]), 0, p));
    }
    law_few_roots(d, zs, p);
}

/// Values that meet the constraints and violate a gate are off for all but few challenges
/// `y`: for fewer than there are gates.
pub proof fn law_few_challenges_hide_a_gate(c: Circuit, w: Values, ys: Seq<int>, z: int, bad: int)
    requires
        is_prime(fp_order()),
        0 <= bad < w.a_o.len(),
        !cong(w.a_l[bad] * w.a_r[bad], w.a_o[bad], fp_order()),
        forall|q: int|
            0 <= q < c.constraints.len() ==> cong(
                lc_eval(#[trigger] c.constraints[q], w),
                0,
                fp_order(),
            ),
        incongruent(ys, fp_order()),
        forall|i: int|
            0 <= i < ys.len() ==> cong(circuit_error(c, w, #[trigger] ys[i], z), 0, fp_order()),
    ensures
        ys.len() < w.a_o.len(),
{
    let p = fp_order();
    lemma_fp_order();
    let gs = gate_values(w);
    let vs = constraint_values(c.constraints, w);
    let zero = Seq::new(vs.len(), |q: int| 0int);
    assert forall|q: int| 0 <= q < vs.len() implies cong(#[trigger] vs[q], zero[q], p) by {
        crate::zk::circuit_laws::lemma_lc_eval_sum(c.constraints[q], w);
        assert(cong(lc_eval(c.constraints[q], w), 0, p));
    }
    crate::algebra::lemma_poly_eval_cong(vs, zero, z, z, p);
    let none = |i: int| zero[i] * pow(z, i as nat);
    assert forall|i: int| 0 <= i < vs.len() implies #[trigger] none(i) == 0 by {
        let e = pow(z, i as nat);
        assert(0 * e == 0);
    }
    lemma_sigma_zero(vs.len(), none);
    assert(poly_eval(zero, z) == 0);
    let e = poly_eval(vs, z);
    lemma_cong_mul(z, z, e, 0, p);
    assert(z * 0 == 0);
    assert(!vanishes(gs, p)) by {
        if vanishes(gs, p) {
            assert(cong(gs[bad], 0, p));
            lemma_cong_add(gs[bad], 0, w.a_o[bad], w.a_o[bad], p);
        }
    }
    assert forall|i: int| 0 <= i < ys.len() implies cong(poly_eval(gs, #[trigger] ys[i]), 0, p) by {
        assert(cong(circuit_error(c, w, ys[i], z), 0, p));
        let g = poly_eval(gs, ys[i]);
        lemma_cong_sub(g + z * e, 0, z * e, 0, p);
    }
    law_few_roots(gs, ys, p);
}

/// `t_1·x + … + t_6·x⁶` as a polynomial.
proof fn lemma_t_sum_poly(t1: int, t2: int, t3: int, t4: int, t5: int, t6: int, x: int)
    ensures
        poly_eval(seq![0, t1, t2, t3, t4, t5, t6], x) == t_sum(t1, t2, t3, t4, t5, t6, x),
{
    let e = Seq::<int>::empty();
    lemma_poly_eval_cons(t6, e, x);
    assert(seq![t6] + e =~= seq![t6]);
    lemma_poly_eval_cons(t5, seq![t6], x);
    assert(seq![t5] + seq![t6] =~= seq![t5, t6]);
    lemma_poly_eval_cons(t4, seq![t5, t6], x);
    assert(seq![t4] + seq![t5, t6] =~= seq![t4, t5, t6]);
    lemma_poly_eval_cons(t3, seq![t4, t5, t6], x);
    assert(seq![t3] + seq![t4, t5, t6] =~= seq![t3, t4, t5, t6]);
    lemma_poly_eval_cons(t2, seq![t3, t4, t5, t6], x);
    assert(seq![t2] + seq![t3, t4, t5, t6] =~= seq![t2, t3, t4, t5, t6]);
    lemma_poly_eval_cons(t1, seq![t2, t3, t4, t5, t6], x);
    assert(seq![t1] + seq![t2, t3, t4, t5, t6] =~= seq![t1, t2, t3, t4, t5, t6]);
    lemma_poly_eval_cons(0, seq![t1, t2, t3, t4, t5, t6], x);
    assert(seq![0int] + seq![t1, t2, t3, t4, t5, t6] =~= seq![0, t1, t2, t3, t4, t5, t6]);
    assert(poly_eval(e, x) == 0);
    assert(0 * x == 0);
    let h6 = t6;
    let h5 = t5 + x * h6;
    let h4 = t4 + x * h5;
    let h3 = t3 + x * h4;
    let h2 = t2 + x * h3;
    let h1 = t1 + x * h2;
    assert(h6 * x == x * h6) by (nonlinear_arith);
    assert(h5 * x == x * h5) by (nonlinear_arith);
    assert(h4 * x == x * h4) by (nonlinear_arith);
    assert(h3 * x == x * h3) by (nonlinear_arith);
    assert(h2 * x == x * h2) by (nonlinear_arith);
    assert(h1 * x == x * h1) by (nonlinear_arith);
    lemma_horner6(t1, t2, t3, t4, t5, t6, x);
}

/// Differences of sums.
proof fn lemma_t_sum_diff(
    a1: int,
    a2: int,
    a3: int,
    a4: int,
    a5: int,
    a6: int,
    b1: int,
    b2: int,
    b3: int,
    b4: int,
    b5: int,
    b6: int,
    x: int,
)
    ensures
        t_sum(a1 - b1, a2 - b2, a3 - b3, a4 - b4, a5 - b5, a6 - b6, x) == t_sum(
            a1,
            a2,
            a3,
            a4,
            a5,
            a6,
            x,
        ) - t_sum(b1, b2, b3, b4, b5, b6, x),
{
    let (x2, x3) = (x * x, (x * x) * x);
    let (x4, x5, x6) = (x3 * x, x3 * x2, x3 * x3);
    assert(x * (a1 - b1) == x * a1 - x * b1) by (nonlinear_arith);
    assert(x2 * (a2 - b2) == x2 * a2 - x2 * b2) by (nonlinear_arith);
    assert(x3 * (a3 - b3) == x3 * a3 - x3 * b3) by (nonlinear_arith);
    assert(x4 * (a4 - b4) == x4 * a4 - x4 * b4) by (nonlinear_arith);
    assert(x5 * (a5 - b5) == x5 * a5 - x5 * b5) by (nonlinear_arith);
    assert(x6 * (a6 - b6) == x6 * a6 - x6 * b6) by (nonlinear_arith);
}

/// Values that are off for the challenges `y` and `z` pass for few challenges `x`: whatever
/// coefficients a prover has committed to, the polynomial that the verifier puts together
/// from them and from the committed values agrees with `⟨l(x), r(x)⟩` for six `x` at most.
pub proof fn law_few_challenges_hide_an_error(
    c: Circuit,
    w: Values,
    bl: BlindingsView,
    n: nat,
    y: int,
    z: int,
    t1: int,
    t3: int,
    t4: int,
    t5: int,
    t6: int,
    xs: Seq<int>,
)
    requires
        is_prime(fp_order()),
        c.n_mul <= n <= usize::MAX,
        c.n_committed <= usize::MAX,
        circuit_ok(c),
        values_fit(c, w),
        blindings_fit(bl, n),
        invertible(y),
        !cong(circuit_error(c, w, y, z), 0, fp_order()),
        incongruent(xs, fp_order()),
        forall|i: int|
            0 <= i < xs.len() ==> ({
                let k = prover_vectors(c, w, bl, n, y, z);
                let t2 = dot(w_v(c.constraints, c.n_committed, z), w.v) + (delta(k, n) + w_c(
                    c.constraints,
                    z,
                ));
                cong(
                    t_sum(t1, t2, t3, t4, t5, t6, #[trigger] xs[i]),
                    dot(l_seq(k, n, xs[i]), r_seq(k, n, xs[i])),
                    fp_order(),
                )
            }),
    ensures
        xs.len() <= 6,
{
    let p = fp_order();
    lemma_fp_order();
    let k = prover_vectors(c, w, bl, n, y, z);
    let t2 = dot(w_v(c.constraints, c.n_committed, z), w.v) + (delta(k, n) + w_c(c.constraints, z));
    let t = t_poly(k, n);
    lemma_vectors(c, w, bl, n, y, z);
    law_t2_measures_the_circuit(c, w, bl, n, y, z);
    let e = circuit_error(c, w, y, z);
    let d = seq![0, t1 - t.t1, t2 - t.t2, t3 - t.t3, t4 - t.t4, t5 - t.t5, t6 - t.t6];
    assert(!vanishes(d, p)) by {
        if vanishes(d, p) {
            assert(cong(d[2], 0, p));
            // e = t_2 − (what is expected) = 0
            lemma_cong_sub(t.t2, t2 + e, t2, t2, p);
            lemma_cong_sub(0, 0, t2 - t.t2, 0, p);
            assert(false);
        }
    }
    assert forall|i: int| 0 <= i < xs.len() implies cong(poly_eval(d, #[trigger] xs[i]), 0, p) by {
        let x = xs[i];
        lemma_t_x(k, n, x);
        let ts = t_sum(t.t1, t.t2, t.t3, t.t4, t.t5, t.t6, x);
        lemma_cong_mod(ts, p);
        lemma_t_sum_poly(
            t1 - t.t1,
            t2 - t.t2,
            t3 - t.t3,
            t4 - t.t4,
            t5 - t.t5,
            t6 - t.t6,
            x,
        );
        lemma_t_sum_diff(t1, t2, t3, t4, t5, t6, t.t1, t.t2, t.t3, t.t4, t.t5, t.t6, x);
        let vs = t_sum(t1, t2, t3, t4, t5, t6, x);
        assert(cong(vs, ts, p));
        lemma_cong_sub(vs, ts, ts, ts, p);
    }
    law_few_roots(d, xs, p);
}

// ─── the check ──────────────────────────────────────────────────────────────

/// The equation for `t(x)`: the opening `t_x` is that of the commitments to the coefficients,
/// with the commitments `V` to the values in the place of that to `t_2`.
pub open spec fn t_equation(
    gens: BpGens,
    log: Seq<TranscriptEvent>,
    c: Circuit,
    commitments: Seq<GoutPoint>,
    p: ProofView,
) -> int {
    let ch = challenges(log, c.n_committed, p);
    let n = pad_len(c.n_mul);
    let k = public_vectors(c.constraints, n, ch.y, ch.z);
    let (x, x2, x3) = (ch.x, ch.x * ch.x, (ch.x * ch.x) * ch.x);
    gout_log(gens.b@) * (x2 * (delta(k, n) + w_c(c.constraints, ch.z)) - p.t_x) + gout_log(
        gens.b_blinding@,
    ) * (-p.t_x_blinding) + (x2 * dot(
        w_v(c.constraints, c.n_committed, ch.z),
        gout_logs(commitments),
    ) + x * gout_log(p.t_1) + x3 * gout_log(p.t_3) + (x3 * x) * gout_log(p.t_4) + (x3 * x2)
        * gout_log(p.t_5) + (x3 * x3) * gout_log(p.t_6))
}

/// The equation for the inner product: the commitments to the wires, combined by `x`, open to
/// vectors with the inner product `t_x`.
pub open spec fn inner_product_equation(
    gens: BpGens,
    log: Seq<TranscriptEvent>,
    c: Circuit,
    p: ProofView,
) -> int {
    let ch = challenges(log, c.n_committed, p);
    let n = pad_len(c.n_mul);
    let k = public_vectors(c.constraints, n, ch.y, ch.z);
    let (x, x2, x3) = (ch.x, ch.x * ch.x, (ch.x * ch.x) * ch.x);
    let s = s_vec(ch.us);
    let (lg, lh) = (gout_logs(gouts(gens.g_vec@)), gout_logs(gouts(gens.h_vec@)));
    (x * gout_log(p.a_i) + x2 * gout_log(p.a_o) + x3 * gout_log(p.s)) + sigma(
        n,
        |i: int| lg[i] * (x * (k.v[i] * k.w_r[i]) - p.a * s[i]),
    ) + sigma(
        n,
        |i: int| lh[i] * (k.v[i] * (x * k.w_l[i] + k.w_o[i] - k.y[i] - p.b * s[n - 1 - i])),
    ) + rounds_sum(ch.us, gout_logs(p.l), gout_logs(p.r)) + gout_log(gens.b@) * (ch.w * (p.t_x - p.a
        * p.b)) + gout_log(gens.b_blinding@) * (-p.e_blinding)
}

/// The exponent of the check of any proof is that of the inner-product equation and, weighted
/// with the last challenge, that of the equation for `t(x)`.
pub proof fn law_check_is_two_equations(
    gens: BpGens,
    log: Seq<TranscriptEvent>,
    c: Circuit,
    commitments: Seq<GoutPoint>,
    p: ProofView,
    v: CheckView,
)
    requires
        gens.well_formed(),
        check_of(log, c, commitments, p) == Some(v),
        pad_len(c.n_mul) <= gens.gens_capacity,
        pad_len(c.n_mul) == s_vec(challenges(log, c.n_committed, p).us).len(),
        challenges(log, c.n_committed, p).us.len() == p.l.len(),
        p.r.len() == p.l.len(),
        commitments.len() == c.n_committed,
    ensures
        cong(
            check_exponent(gens, v),
            inner_product_equation(gens, log, c, p) + challenges(log, c.n_committed, p).r
                * t_equation(gens, log, c, commitments, p),
            fp_order(),
        ),
{
    let m = fp_order();
    lemma_fp_order();
    let ch = challenges(log, c.n_committed, p);
    let n = pad_len(c.n_mul);
    let k = public_vectors(c.constraints, n, ch.y, ch.z);
    let wv = w_v(c.constraints, c.n_committed, ch.z);
    let wc = w_c(c.constraints, ch.z);
    let (x, r) = (ch.x, ch.r);
    let (x2, x3) = (x * x, (x * x) * x);
    let s = s_vec(ch.us);
    let (lb, lbb) = (gout_log(gens.b@), gout_log(gens.b_blinding@));
    let (ag, ah) = (gout_logs(gouts(gens.g_vec@)), gout_logs(gouts(gens.h_vec@)));
    let (lg, lh) = (
        gout_logs(bases(gouts(gens.g_vec@), n)),
        gout_logs(bases(gouts(gens.h_vec@), n)),
    );
    // the bases G
    let fg = |i: int| lg[i] * v.g[i];
    let gg = |i: int| ag[i] * (x * (k.v[i] * k.w_r[i]) - p.a * s[i]);
    assert forall|i: int| 0 <= i < n implies cong(#[trigger] fg(i), gg(i), m) by {
        let e = g_scalar(k, x, p.a, s, i);
        lemma_cong_mod(e, m);
        lemma_cong_mul(ag[i], ag[i], e % m, e, m);
        assert(lg[i] == ag[i]);
    }
    lemma_sigma_cong(n, fg, gg, m);
    lemma_sigma_eq(n, fg, |i: int| lg[i] * v.g[i]);
    // the bases H
    let fh = |i: int| lh[i] * v.h[i];
    let hh = |i: int|
        ah[i] * (k.v[i] * (x * k.w_l[i] + k.w_o[i] - k.y[i] - p.b * s[n - 1 - i]));
    assert forall|i: int| 0 <= i < n implies cong(#[trigger] fh(i), hh(i), m) by {
        let e = h_scalar(k, x, p.b, s.reverse(), i);
        assert(s.reverse()[i] == s[n - 1 - i]);
        lemma_cong_mod(e, m);
        lemma_cong_mul(ah[i], ah[i], e % m, e, m);
        assert(lh[i] == ah[i]);
    }
    lemma_sigma_cong(n, fh, hh, m);
    lemma_sigma_eq(n, fh, |i: int| lh[i] * v.h[i]);
    // the other points
    lemma_points_dot(commitments, p, ch.us, wv, x, r);
    let rounds = rounds_sum(ch.us, gout_logs(p.l), gout_logs(p.r));
    let tail = x2 * dot(wv, gout_logs(commitments)) + x * gout_log(p.t_1) + x3 * gout_log(p.t_3) + (
    x3 * x) * gout_log(p.t_4) + (x3 * x2) * gout_log(p.t_5) + (x3 * x3) * gout_log(p.t_6);
    // B and the blinding base
    let dc = delta(k, n) + wc;
    let b_full = ch.w * (p.t_x - p.a * p.b) + r * (x2 * dc - p.t_x);
    let bb_full = -p.e_blinding - r * p.t_x_blinding;
    lemma_cong_mod(b_full, m);
    lemma_cong_mod(bb_full, m);
    lemma_cong_mul(lb, lb, v.b, b_full, m);
    lemma_cong_mul(lbb, lbb, v.b_blinding, bb_full, m);
    lemma_cong_add(lb * v.b, lb * b_full, lbb * v.b_blinding, lbb * bb_full, m);
    let two = lb * v.b + lbb * v.b_blinding;
    lemma_cong_add(two, lb * b_full + lbb * bb_full, dot(lg, v.g), sigma(n, gg), m);
    lemma_cong_add(
        two + dot(lg, v.g),
        lb * b_full + lbb * bb_full + sigma(n, gg),
        dot(lh, v.h),
        sigma(n, hh),
        m,
    );
    let head = x * gout_log(p.a_i) + x2 * gout_log(p.a_o) + x3 * gout_log(p.s);
    lemma_cong_add(
        two + dot(lg, v.g) + dot(lh, v.h),
        lb * b_full + lbb * bb_full + sigma(n, gg) + sigma(n, hh),
        dot(gout_logs(v.points), v.scalars),
        head + rounds + r * tail,
        m,
    );
    lemma_assemble(
        lb,
        lbb,
        r,
        ch.w * (p.t_x - p.a * p.b),
        x2 * dc - p.t_x,
        p.e_blinding,
        p.t_x_blinding,
        tail,
    );
}


/// The digest of a check is drawn from the transcript of its whole proof, after the final
/// scalars.
pub proof fn law_check_is_bound_to_its_proof(
    log: Seq<TranscriptEvent>,
    c: Circuit,
    commitments: Seq<GoutPoint>,
    p: ProofView,
)
    requires
        p.r.len() >= p.l.len(),
    ensures
        check_of(log, c, commitments, p) matches Some(v) ==> v.digest == transcript_challenge(
            round_events(
                opening_events(log, c.n_committed, p).push(draw("w".spec_bytes())),
                p.l,
                p.r,
                3 * p.l.len(),
            ) + seq![
                draw("r".spec_bytes()),
                sent("a".spec_bytes(), le_bytes(p.a, 32)),
                sent("b".spec_bytes(), le_bytes(p.b, 32)),
            ],
            "digest".spec_bytes(),
            32,
        ),
        check_of(log, c, commitments, p) is None <==> drawn(
            wire_events(log, c.n_committed, p),
            "y".spec_bytes(),
        ) == 0,
{
    law_proof_challenges(log, c.n_committed, p);
}

/// A proof that was made with given blinding factors uses every one of them: they blind the
/// commitments to the wires and to the coefficients of `t(x)`, and the openings are those of
/// the blinded polynomials at `x`.
pub proof fn law_made_proof_uses_its_blindings(
    gens: BpGens,
    log: Seq<TranscriptEvent>,
    c: Circuit,
    w: Values,
    gammas: Seq<int>,
    bl: BlindingsView,
    p: R1CSProof,
)
    requires
        proof_made(gens, log, c, w, gammas, bl, p),
        blindings_fit(bl, pad_len(c.n_mul)),
    ensures
        ({
            let n = pad_len(c.n_mul);
            let ch = challenges(log, c.n_committed, p@);
            let k = prover_vectors(c, w, bl, n, ch.y, ch.z);
            let t = t_poly(k, n);
            let (x, x2, x3) = (ch.x, ch.x * ch.x, (ch.x * ch.x) * ch.x);
            let (g, h) = (gouts(gens.g_vec@).take(n as int), gouts(gens.h_vec@).take(n as int));
            let (b, bb) = (gens.b@, gens.b_blinding@);
            &&& p@.a_i == gout_msm(
                seq![bb] + g + h,
                seq![bl.i] + pad(w.a_l, n) + pad(w.a_r, n),
            )
            &&& p@.a_o == gout_msm(seq![bb] + g, seq![bl.o] + pad(w.a_o, n))
            &&& p@.s == gout_msm(seq![bb] + g + h, seq![bl.s] + bl.s_l + bl.s_r)
            &&& p@.t_1 == gout_sum(gout_scale(b, t.t1), gout_scale(bb, bl.t_1))
            &&& p@.t_3 == gout_sum(gout_scale(b, t.t3), gout_scale(bb, bl.t_3))
            &&& p@.t_4 == gout_sum(gout_scale(b, t.t4), gout_scale(bb, bl.t_4))
            &&& p@.t_5 == gout_sum(gout_scale(b, t.t5), gout_scale(bb, bl.t_5))
            &&& p@.t_6 == gout_sum(gout_scale(b, t.t6), gout_scale(bb, bl.t_6))
            &&& cong(p@.t_x, dot(l_seq(k, n, x), r_seq(k, n, x)), fp_order())
            &&& cong(
                p@.t_x_blinding,
                x * bl.t_1 + x2 * dot(w_v(c.constraints, c.n_committed, ch.z), gammas) + x3
                    * bl.t_3 + (x3 * x) * bl.t_4 + (x3 * x2) * bl.t_5 + (x3 * x3) * bl.t_6,
                fp_order(),
            )
            &&& cong(p@.e_blinding, x * bl.i + x2 * bl.o + x3 * bl.s, fp_order())
        }),
{
    reveal(proof_made);
    reveal(honest_proof);
    let m = fp_order();
    lemma_fp_order();
    let n = pad_len(c.n_mul);
    let ch = challenges(log, c.n_committed, p@);
    let k = prover_vectors(c, w, bl, n, ch.y, ch.z);
    let t = t_poly(k, n);
    let x = ch.x;
    let (x2, x3) = (x * x, (x * x) * x);
    lemma_vectors(c, w, bl, n, ch.y, ch.z);
    lemma_t_x(k, n, x);
    let d = dot(w_v(c.constraints, c.n_committed, ch.z), gammas);
    lemma_cong_mod(d, m);
    lemma_cong_mul(x2, x2, d % m, d, m);
    let rest = x * bl.t_1 + x3 * bl.t_3 + (x3 * x) * bl.t_4 + (x3 * x2) * bl.t_5 + (x3 * x3)
        * bl.t_6;
    lemma_cong_add(rest, rest, x2 * (d % m), x2 * d, m);
    lemma_cong_mod(t_sum(bl.t_1, d % m, bl.t_3, bl.t_4, bl.t_5, bl.t_6, x), m);
    lemma_cong_mod(x * bl.i + x2 * bl.o + x3 * bl.s, m);
}

} // verus!
