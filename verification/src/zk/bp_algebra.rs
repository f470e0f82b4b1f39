//! The arithmetic behind the proof system: why an honest proof verifies.
use crate::algebra::{
    cong, dot, lemma_cong_add, lemma_cong_mod, lemma_cong_mul, lemma_cong_sub, lemma_sigma_add,
    lemma_sigma_cong, lemma_sigma_eq, lemma_sigma_scale, lemma_sigma_zero, sigma,
};
use crate::field::{fp_order, lemma_fp_order};
use crate::zk::ipa::scaled_logs;
use crate::zk::r1cs::{
    flat, flat_eval, gates_hold, law_flatten, lc_eval, lc_in, lemma_lc_eval_same, var_in, weigh,
    wire, Lc, Values, Variable,
};
use vstd::prelude::*;

verus! {

// ─── linear combinations of vectors ─────────────────────────────────────────

/// An inner product with a combination of four vectors.
pub proof fn lemma_dot_lin4(
    g: Seq<int>,
    out: Seq<int>,
    f1: Seq<int>,
    f2: Seq<int>,
    f3: Seq<int>,
    f4: Seq<int>,
    c1: int,
    c2: int,
    c3: int,
    c4: int,
)
    requires
        g.len() == out.len() == f1.len() == f2.len() == f3.len() == f4.len(),
        forall|i: int|
            0 <= i < g.len() ==> cong(
                #[trigger] out[i],
                c1 * f1[i] + c2 * f2[i] + c3 * f3[i] + c4 * f4[i],
                fp_order(),
            ),
    ensures
        cong(
            dot(g, out),
            c1 * dot(g, f1) + c2 * dot(g, f2) + c3 * dot(g, f3) + c4 * dot(g, f4),
            fp_order(),
        ),
{
    let m = fp_order();
    lemma_fp_order();
    let n = g.len();
    let a = |i: int| g[i] * out[i];
    let p1 = |i: int| g[i] * f1[i];
    let p2 = |i: int| g[i] * f2[i];
    let p3 = |i: int| g[i] * f3[i];
    let p4 = |i: int| g[i] * f4[i];
    let q1 = |i: int| c1 * p1(i);
    let q2 = |i: int| c2 * p2(i);
    let q3 = |i: int| c3 * p3(i);
    let q4 = |i: int| c4 * p4(i);
    let s2 = |i: int| q1(i) + q2(i);
    let s3 = |i: int| s2(i) + q3(i);
    let s4 = |i: int| s3(i) + q4(i);
    assert forall|i: int| 0 <= i < n implies cong(#[trigger] a(i), s4(i), m) by {
        let x = g[i];
        let (y1, y2, y3, y4) = (f1[i], f2[i], f3[i], f4[i]);
        let (e1, e2, e3, e4) = (c1 * y1, c2 * y2, c3 * y3, c4 * y4);
        lemma_cong_mul(x, x, out[i], e1 + e2 + e3 + e4, m);
        assert(x * (e1 + e2 + e3 + e4) == x * e1 + x * e2 + x * e3 + x * e4) by (nonlinear_arith);
        assert(x * (c1 * y1) == c1 * (x * y1)) by (nonlinear_arith);
        assert(x * (c2 * y2) == c2 * (x * y2)) by (nonlinear_arith);
        assert(x * (c3 * y3) == c3 * (x * y3)) by (nonlinear_arith);
        assert(x * (c4 * y4) == c4 * (x * y4)) by (nonlinear_arith);
    }
    lemma_sigma_cong(n, a, s4, m);
    lemma_sigma_add(n, s3, q4);
    lemma_sigma_add(n, s2, q3);
    lemma_sigma_add(n, q1, q2);
    lemma_sigma_scale(n, c1, p1);
    lemma_sigma_scale(n, c2, p2);
    lemma_sigma_scale(n, c3, p3);
    lemma_sigma_scale(n, c4, p4);
    lemma_sigma_eq(n, a, |i: int| g[i] * out[i]);
    lemma_sigma_eq(n, p1, |i: int| g[i] * f1[i]);
    lemma_sigma_eq(n, p2, |i: int| g[i] * f2[i]);
    lemma_sigma_eq(n, p3, |i: int| g[i] * f3[i]);
    lemma_sigma_eq(n, p4, |i: int| g[i] * f4[i]);
}

/// An inner product with a combination of two vectors.
pub proof fn lemma_dot_lin2(
    g: Seq<int>,
    out: Seq<int>,
    f1: Seq<int>,
    f2: Seq<int>,
    c1: int,
    c2: int,
)
    requires
        g.len() == out.len() == f1.len() == f2.len(),
        forall|i: int|
            0 <= i < g.len() ==> cong(#[trigger] out[i], c1 * f1[i] + c2 * f2[i], fp_order()),
    ensures
        cong(dot(g, out), c1 * dot(g, f1) + c2 * dot(g, f2), fp_order()),
{
    let (z1, z2) = (dot(g, f1), dot(g, f2));
    assert forall|i: int| 0 <= i < g.len() implies cong(
        #[trigger] out[i],
        c1 * f1[i] + c2 * f2[i] + 0 * f1[i] + 0 * f1[i],
        fp_order(),
    ) by {
        let y = f1[i];
        assert(0 * y == 0);
    }
    lemma_dot_lin4(g, out, f1, f2, f1, f1, c1, c2, 0, 0);
    assert(0 * z1 == 0);
}

pub proof fn lemma_dot_comm(a: Seq<int>, b: Seq<int>)
    requires
        a.len() == b.len(),
    ensures
        dot(a, b) == dot(b, a),
{
    let f = |i: int| a[i] * b[i];
    let g = |i: int| b[i] * a[i];
    assert forall|i: int| 0 <= i < a.len() implies #[trigger] f(i) == g(i) by {
        let (x, y) = (a[i], b[i]);
        assert(x * y == y * x) by (nonlinear_arith);
    }
    lemma_sigma_eq(a.len(), f, g);
}

/// `u_i · v_i`, not reduced.
pub open spec fn hadamard(u: Seq<int>, v: Seq<int>) -> Seq<int> {
    Seq::new(u.len(), |i: int| u[i] * v[i])
}

/// Scaling the bases is scaling the vector.
pub proof fn lemma_scaled_dot(h: Seq<int>, v: Seq<int>, r: Seq<int>)
    requires
        h.len() == v.len() == r.len(),
    ensures
        cong(dot(r, scaled_logs(h, v)), dot(h, hadamard(v, r)), fp_order()),
{
    let m = fp_order();
    lemma_fp_order();
    let n = h.len();
    let (sh, hr) = (scaled_logs(h, v), hadamard(v, r));
    let a = |i: int| r[i] * sh[i];
    let b = |i: int| h[i] * hr[i];
    assert forall|i: int| 0 <= i < n implies cong(#[trigger] a(i), b(i), m) by {
        let (x, y, z) = (h[i], v[i], r[i]);
        lemma_cong_mod(x * y, m);
        lemma_cong_mul(z, z, (x * y) % m, x * y, m);
        assert(z * (x * y) == x * (y * z)) by (nonlinear_arith);
    }
    lemma_sigma_cong(n, a, b, m);
    lemma_sigma_eq(n, a, |i: int| r[i] * sh[i]);
    lemma_sigma_eq(n, b, |i: int| h[i] * hr[i]);
}

// ─── the combined check ─────────────────────────────────────────────────────

/// The vectors of one proof, each of one length.
pub struct Vectors {
    pub a_l: Seq<int>,
    pub a_r: Seq<int>,
    pub a_o: Seq<int>,
    pub s_l: Seq<int>,
    pub s_r: Seq<int>,
    pub w_l: Seq<int>,
    pub w_r: Seq<int>,
    pub w_o: Seq<int>,
    /// `y^i`.
    pub y: Seq<int>,
    /// `y^{-i}`.
    pub v: Seq<int>,
}

pub open spec fn vectors_len(k: Vectors, n: nat) -> bool {
    &&& k.a_l.len() == n
    &&& k.a_r.len() == n
    &&& k.a_o.len() == n
    &&& k.s_l.len() == n
    &&& k.s_r.len() == n
    &&& k.w_l.len() == n
    &&& k.w_r.len() == n
    &&& k.w_o.len() == n
    &&& k.y.len() == n
    &&& k.v.len() == n
    &&& forall|i: int| 0 <= i < n ==> cong(#[trigger] k.y[i] * k.v[i], 1, fp_order())
}

/// `l(x)_i = x·(a_L + y^{-i}·w_R) + x²·a_O + x³·s_L`.
pub open spec fn l_at(k: Vectors, x: int, i: int) -> int {
    x * k.a_l[i] + x * (k.v[i] * k.w_r[i]) + (x * x) * k.a_o[i] + ((x * x) * x) * k.s_l[i]
}

/// `r(x)_i = w_O − y^i + x·(y^i·a_R + w_L) + x³·y^i·s_R`.
pub open spec fn r_at(k: Vectors, x: int, i: int) -> int {
    (k.w_o[i] - k.y[i]) + x * (k.y[i] * k.a_r[i] + k.w_l[i]) + ((x * x) * x) * (k.y[i] * k.s_r[i])
}

/// `y^{-i}·r(x)_i`, taken apart.
proof fn lemma_r_scaled(k: Vectors, x: int, i: int, n: nat)
    requires
        vectors_len(k, n),
        0 <= i < n,
    ensures
        cong(
            k.v[i] * r_at(k, x, i),
            k.v[i] * (x * k.w_l[i] + k.w_o[i] - k.y[i]) + x * k.a_r[i] + ((x * x) * x) * k.s_r[i],
            fp_order(),
        ),
{
    let m = fp_order();
    lemma_fp_order();
    let (v, y, ar, sr, wl, wo, x3) = (
        k.v[i],
        k.y[i],
        k.a_r[i],
        k.s_r[i],
        k.w_l[i],
        k.w_o[i],
        (x * x) * x,
    );
    assert(cong(k.y[i] * k.v[i], 1, m));
    let (p, q) = (y * ar, y * sr);
    // v·r == v·(x·wl + wo − y) + x·(v·p) + x3·(v·q)
    assert(v * ((wo - y) + x * (p + wl) + x3 * q) == v * (x * wl + wo - y) + x * (v * p) + x3 * (v
        * q)) by {
        let (e, f, g) = (x * p, x * wl, x3 * q);
        assert(x * (p + wl) == e + f) by (nonlinear_arith)
            requires
                e == x * p,
                f == x * wl,
        ;
        assert(v * ((wo - y) + (e + f) + g) == v * (f + wo - y) + v * e + v * g)
            by (nonlinear_arith);
        assert(v * (x * p) == x * (v * p)) by (nonlinear_arith);
        assert(v * (x3 * q) == x3 * (v * q)) by (nonlinear_arith);
    }
    assert(v * (y * ar) == (y * v) * ar) by (nonlinear_arith);
    assert(v * (y * sr) == (y * v) * sr) by (nonlinear_arith);
    lemma_cong_mul(y * v, 1, ar, ar, m);
    lemma_cong_mul(y * v, 1, sr, sr, m);
    assert(1 * ar == ar && 1 * sr == sr);
    lemma_cong_mul(x, x, v * p, ar, m);
    lemma_cong_mul(x3, x3, v * q, sr, m);
    let z = v * (x * wl + wo - y);
    lemma_cong_add(z, z, x * (v * p), x * ar, m);
    lemma_cong_add(z + x * (v * p), z + x * ar, x3 * (v * q), x3 * sr, m);
}

/// The scalars of the bases `G`: `x·y^{-i}·w_R − a·s_i`.
pub open spec fn g_scalar(k: Vectors, x: int, a: int, s: Seq<int>, i: int) -> int {
    x * (k.v[i] * k.w_r[i]) - a * s[i]
}

/// The scalars of the bases `H`: `y^{-i}·(x·w_L + w_O − y^i − b·s'_i)`.
pub open spec fn h_scalar(k: Vectors, x: int, b: int, s: Seq<int>, i: int) -> int {
    k.v[i] * (x * k.w_l[i] + k.w_o[i] - k.y[i] - b * s[i])
}

/// The terms of the bases `G`, with what the commitments contribute to them.
pub proof fn lemma_g_side(
    k: Vectors,
    n: nat,
    g: Seq<int>,
    gs: Seq<int>,
    l: Seq<int>,
    s: Seq<int>,
    x: int,
    a: int,
)
    requires
        vectors_len(k, n),
        g.len() == n,
        gs.len() == n,
        l.len() == n,
        s.len() == n,
        forall|i: int| 0 <= i < n ==> cong(#[trigger] gs[i], g_scalar(k, x, a, s, i), fp_order()),
        forall|i: int| 0 <= i < n ==> cong(#[trigger] l[i], l_at(k, x, i), fp_order()),
    ensures
        cong(
            x * dot(g, k.a_l) + (x * x) * dot(g, k.a_o) + ((x * x) * x) * dot(g, k.s_l) + dot(g, gs),
            dot(l, g) - a * dot(s, g),
            fp_order(),
        ),
{
    let m = fp_order();
    lemma_fp_order();
    let vw = hadamard(k.v, k.w_r);
    let (x2, x3) = (x * x, (x * x) * x);
    assert forall|i: int| 0 <= i < n implies cong(
        #[trigger] l[i],
        x * k.a_l[i] + x * vw[i] + x2 * k.a_o[i] + x3 * k.s_l[i],
        m,
    ) by {}
    lemma_dot_lin4(g, l, k.a_l, vw, k.a_o, k.s_l, x, x, x2, x3);
    assert forall|i: int| 0 <= i < n implies cong(#[trigger] gs[i], x * vw[i] + (-a) * s[i], m) by {
        let si = s[i];
        assert((-a) * si == -(a * si)) by (nonlinear_arith);
    }
    lemma_dot_lin2(g, gs, vw, s, x, -a);
    lemma_dot_comm(g, l);
    lemma_dot_comm(g, s);
    let (da, dv, do_, ds, dw) = (
        dot(g, k.a_l),
        dot(g, vw),
        dot(g, k.a_o),
        dot(g, k.s_l),
        dot(g, s),
    );
    assert((-a) * dw == -(a * dw)) by (nonlinear_arith);
    let base = x * da + x2 * do_ + x3 * ds;
    lemma_cong_add(base, base, dot(g, gs), x * dv + (-a) * dw, m);
    lemma_cong_sub(dot(g, l), x * da + x * dv + x2 * do_ + x3 * ds, a * dw, a * dw, m);
}

/// The terms of the bases `H`, with what the commitments contribute to them.
pub proof fn lemma_h_side(
    k: Vectors,
    n: nat,
    h: Seq<int>,
    hs: Seq<int>,
    r: Seq<int>,
    s: Seq<int>,
    x: int,
    b: int,
)
    requires
        vectors_len(k, n),
        h.len() == n,
        hs.len() == n,
        r.len() == n,
        s.len() == n,
        forall|i: int| 0 <= i < n ==> cong(#[trigger] hs[i], h_scalar(k, x, b, s, i), fp_order()),
        forall|i: int| 0 <= i < n ==> cong(#[trigger] r[i], r_at(k, x, i), fp_order()),
    ensures
        cong(
            x * dot(h, k.a_r) + ((x * x) * x) * dot(h, k.s_r) + dot(h, hs),
            dot(r, scaled_logs(h, k.v)) - b * dot(s, scaled_logs(h, k.v)),
            fp_order(),
        ),
{
    let m = fp_order();
    lemma_fp_order();
    let x3 = (x * x) * x;
    let base = Seq::new(n, |i: int| k.v[i] * (x * k.w_l[i] + k.w_o[i] - k.y[i]));
    let vr = hadamard(k.v, r);
    let vs = hadamard(k.v, s);
    assert forall|i: int| 0 <= i < n implies cong(
        #[trigger] vr[i],
        1 * base[i] + x * k.a_r[i] + x3 * k.s_r[i] + 0 * base[i],
        m,
    ) by {
        assert(cong(r[i], r_at(k, x, i), m));
        lemma_cong_mul(k.v[i], k.v[i], r[i], r_at(k, x, i), m);
        lemma_r_scaled(k, x, i, n);
        let e = base[i];
        assert(1 * e == e && 0 * e == 0);
    }
    lemma_dot_lin4(h, vr, base, k.a_r, k.s_r, base, 1, x, x3, 0);
    assert forall|i: int| 0 <= i < n implies cong(#[trigger] hs[i], 1 * base[i] + (-b) * vs[i], m) by {
        let (v, e, si) = (k.v[i], x * k.w_l[i] + k.w_o[i] - k.y[i], s[i]);
        assert(v * (e - b * si) == v * e + (-b) * (v * si)) by {
            let f = b * si;
            assert(v * (e - f) == v * e - v * f) by (nonlinear_arith);
            assert(v * (b * si) == b * (v * si)) by (nonlinear_arith);
            let w = v * si;
            assert((-b) * w == -(b * w)) by (nonlinear_arith);
        }
        let f = base[i];
        assert(1 * f == f);
    }
    lemma_dot_lin2(h, hs, base, vs, 1, -b);
    lemma_scaled_dot(h, k.v, r);
    lemma_scaled_dot(h, k.v, s);
    let (db, da, ds, dw) = (dot(h, base), dot(h, k.a_r), dot(h, k.s_r), dot(h, vs));
    assert(1 * db == db && 0 * db == 0);
    assert((-b) * dw == -(b * dw)) by (nonlinear_arith);
    let q = dot(s, scaled_logs(h, k.v));
    lemma_cong_mul(b, b, q, dw, m);
    lemma_cong_sub(
        dot(r, scaled_logs(h, k.v)),
        db + x * da + x3 * ds,
        b * q,
        b * dw,
        m,
    );
    let front = x * da + x3 * ds;
    lemma_cong_add(front, front, dot(h, hs), db - b * dw, m);
}

// ─── the polynomial t(x) ────────────────────────────────────────────────────

/// `t_1·x + t_2·x² + t_3·x³ + t_4·x⁴ + t_5·x⁵ + t_6·x⁶`.
pub open spec fn t_sum(t1: int, t2: int, t3: int, t4: int, t5: int, t6: int, x: int) -> int {
    let (x2, x3) = (x * x, (x * x) * x);
    x * t1 + x2 * t2 + x3 * t3 + (x3 * x) * t4 + (x3 * x2) * t5 + (x3 * x3) * t6
}

/// Horner's rule for [`t_sum`].
pub proof fn lemma_horner6(t1: int, t2: int, t3: int, t4: int, t5: int, t6: int, x: int)
    ensures
        x * (t1 + x * (t2 + x * (t3 + x * (t4 + x * (t5 + x * t6))))) == t_sum(
            t1,
            t2,
            t3,
            t4,
            t5,
            t6,
            x,
        ),
{
    let (x2, x3) = (x * x, (x * x) * x);
    let h5 = t5 + x * t6;
    let h4 = t4 + x * h5;
    let h3 = t3 + x * h4;
    let h2 = t2 + x * h3;
    let h1 = t1 + x * h2;
    assert(x * h1 == x * t1 + x2 * h2) by {
        let e = x * h2;
        assert(x * (t1 + e) == x * t1 + x * e) by (nonlinear_arith);
        assert(x * (x * h2) == (x * x) * h2) by (nonlinear_arith);
    }
    assert(x2 * h2 == x2 * t2 + x3 * h3) by {
        let e = x * h3;
        assert(x2 * (t2 + e) == x2 * t2 + x2 * e) by (nonlinear_arith);
        assert(x2 * (x * h3) == (x2 * x) * h3) by (nonlinear_arith);
    }
    assert(x3 * h3 == x3 * t3 + (x3 * x) * h4) by {
        let e = x * h4;
        assert(x3 * (t3 + e) == x3 * t3 + x3 * e) by (nonlinear_arith);
        assert(x3 * (x * h4) == (x3 * x) * h4) by (nonlinear_arith);
    }
    let x4 = x3 * x;
    assert(x4 * h4 == x4 * t4 + (x3 * x2) * h5) by {
        let e = x * h5;
        assert(x4 * (t4 + e) == x4 * t4 + x4 * e) by (nonlinear_arith);
        assert((x3 * x) * (x * h5) == (x3 * (x * x)) * h5) by (nonlinear_arith);
    }
    let x5 = x3 * x2;
    assert(x5 * h5 == x5 * t5 + (x3 * x3) * t6) by {
        let e = x * t6;
        assert(x5 * (t5 + e) == x5 * t5 + x5 * e) by (nonlinear_arith);
        assert((x3 * x2) * (x * t6) == (x3 * (x2 * x)) * t6) by (nonlinear_arith);
    }
}

/// The inner product of `l(x)` and `r(x)` is `t(x)`.
pub proof fn lemma_t_of_x(
    l: Seq<int>,
    r: Seq<int>,
    l1: Seq<int>,
    l2: Seq<int>,
    l3: Seq<int>,
    r0: Seq<int>,
    r1: Seq<int>,
    r3: Seq<int>,
    x: int,
)
    requires
        l.len() == r.len() == l1.len() == l2.len() == l3.len() == r0.len() == r1.len() == r3.len(),
        forall|i: int|
            0 <= i < l.len() ==> cong(
                #[trigger] l[i],
                x * l1[i] + (x * x) * l2[i] + ((x * x) * x) * l3[i],
                fp_order(),
            ),
        forall|i: int|
            0 <= i < l.len() ==> cong(
                #[trigger] r[i],
                r0[i] + x * r1[i] + ((x * x) * x) * r3[i],
                fp_order(),
            ),
    ensures
        cong(
            dot(l, r),
            t_sum(
                dot(l1, r0),
                dot(l2, r0) + dot(l1, r1),
                dot(l3, r0) + dot(l2, r1),
                dot(l3, r1) + dot(l1, r3),
                dot(l2, r3),
                dot(l3, r3),
                x,
            ),
            fp_order(),
        ),
{
    let m = fp_order();
    lemma_fp_order();
    let n = l.len();
    let (x2, x3) = (x * x, (x * x) * x);
    assert forall|i: int| 0 <= i < n implies cong(
        #[trigger] r[i],
        1 * r0[i] + x * r1[i] + x3 * r3[i] + 0 * r0[i],
        m,
    ) by {
        let e = r0[i];
        assert(1 * e == e && 0 * e == 0);
    }
    lemma_dot_lin4(l, r, r0, r1, r3, r0, 1, x, x3, 0);
    assert forall|i: int| 0 <= i < n implies cong(
        #[trigger] l[i],
        x * l1[i] + x2 * l2[i] + x3 * l3[i] + 0 * l1[i],
        m,
    ) by {
        let e = l1[i];
        assert(0 * e == 0);
    }
    lemma_dot_lin4(r0, l, l1, l2, l3, l1, x, x2, x3, 0);
    lemma_dot_lin4(r1, l, l1, l2, l3, l1, x, x2, x3, 0);
    lemma_dot_lin4(r3, l, l1, l2, l3, l1, x, x2, x3, 0);
    lemma_dot_comm(l, r0);
    lemma_dot_comm(l, r1);
    lemma_dot_comm(l, r3);
    lemma_dot_comm(l1, r0);
    lemma_dot_comm(l2, r0);
    lemma_dot_comm(l3, r0);
    lemma_dot_comm(l1, r1);
    lemma_dot_comm(l2, r1);
    lemma_dot_comm(l3, r1);
    lemma_dot_comm(l1, r3);
    lemma_dot_comm(l2, r3);
    lemma_dot_comm(l3, r3);
    let (a0, b0, c0) = (dot(l1, r0), dot(l2, r0), dot(l3, r0));
    let (a1, b1, c1) = (dot(l1, r1), dot(l2, r1), dot(l3, r1));
    let (a3, b3, c3) = (dot(l1, r3), dot(l2, r3), dot(l3, r3));
    let (d0, d1, d3) = (dot(l, r0), dot(l, r1), dot(l, r3));
    assert(0 * a0 == 0 && 0 * a1 == 0 && 0 * a3 == 0 && 0 * d0 == 0 && 1 * d0 == d0);
    let (e0, e1, e3) = (
        x * a0 + x2 * b0 + x3 * c0,
        x * a1 + x2 * b1 + x3 * c1,
        x * a3 + x2 * b3 + x3 * c3,
    );
    lemma_cong_mul(x, x, d1, e1, m);
    lemma_cong_mul(x3, x3, d3, e3, m);
    lemma_cong_add(d0, e0, x * d1, x * e1, m);
    lemma_cong_add(d0 + x * d1, e0 + x * e1, x3 * d3, x3 * e3, m);
    assert(x * e1 == x2 * a1 + x3 * b1 + (x3 * x) * c1) by {
        let (p, q, s) = (x * a1, x2 * b1, x3 * c1);
        assert(x * (p + q + s) == x * p + x * q + x * s) by (nonlinear_arith);
        assert(x * (x * a1) == (x * x) * a1) by (nonlinear_arith);
        assert(x * (x2 * b1) == (x2 * x) * b1) by (nonlinear_arith);
        assert(x * (x3 * c1) == (x3 * x) * c1) by (nonlinear_arith);
    }
    assert(x3 * e3 == (x3 * x) * a3 + (x3 * x2) * b3 + (x3 * x3) * c3) by {
        let (p, q, s) = (x * a3, x2 * b3, x3 * c3);
        assert(x3 * (p + q + s) == x3 * p + x3 * q + x3 * s) by (nonlinear_arith);
        assert(x3 * (x * a3) == (x3 * x) * a3) by (nonlinear_arith);
        assert(x3 * (x2 * b3) == (x3 * x2) * b3) by (nonlinear_arith);
        assert(x3 * (x3 * c3) == (x3 * x3) * c3) by (nonlinear_arith);
    }
    assert(x2 * (b0 + a1) == x2 * b0 + x2 * a1) by (nonlinear_arith);
    assert(x3 * (c0 + b1) == x3 * c0 + x3 * b1) by (nonlinear_arith);
    let x4 = x3 * x;
    assert(x4 * (c1 + a3) == x4 * c1 + x4 * a3) by (nonlinear_arith);
}

/// `δ(y, z) = ⟨y^{-n}∘w_R, w_L⟩`.
pub open spec fn delta(k: Vectors, n: nat) -> int {
    sigma(n, |i: int| (k.v[i] * k.w_r[i]) * k.w_l[i])
}

/// One coordinate of `t_2`.
proof fn lemma_t2_pointwise(k: Vectors, n: nat, i: int)
    requires
        vectors_len(k, n),
        0 <= i < n,
    ensures
        cong(
            k.a_o[i] * (k.w_o[i] - k.y[i]) + (k.a_l[i] + k.v[i] * k.w_r[i]) * (k.y[i] * k.a_r[i]
                + k.w_l[i]),
            k.w_l[i] * k.a_l[i] + k.w_r[i] * k.a_r[i] + k.w_o[i] * k.a_o[i] + (k.v[i] * k.w_r[i])
                * k.w_l[i] + (k.a_l[i] * k.a_r[i] - k.a_o[i]) * k.y[i],
            fp_order(),
        ),
{
    let m = fp_order();
    lemma_fp_order();
    let (al, ar, ao, wl, wr, wo, y, v) = (
        k.a_l[i],
        k.a_r[i],
        k.a_o[i],
        k.w_l[i],
        k.w_r[i],
        k.w_o[i],
        k.y[i],
        k.v[i],
    );
    assert(cong(k.y[i] * k.v[i], 1, m));
    let vw = v * wr;
    let ya = y * ar;
    assert((al + vw) * (ya + wl) == al * ya + al * wl + vw * ya + vw * wl) by (nonlinear_arith);
    assert(ao * (wo - y) == ao * wo - ao * y) by (nonlinear_arith);
    assert(al * (y * ar) == (al * ar) * y) by (nonlinear_arith);
    let lr = al * ar;
    assert((lr - ao) * y == lr * y - ao * y) by (nonlinear_arith);
    assert((v * wr) * (y * ar) == (y * v) * (wr * ar)) by (nonlinear_arith);
    lemma_cong_mul(y * v, 1, wr * ar, wr * ar, m);
    let wa = wr * ar;
    assert(1 * wa == wa);
    // ao·wo − ao·y + al·ya + al·wl + vw·ya + vw·wl
    let c0 = ao * wo - ao * y + al * wl + vw * wl;
    lemma_cong_add(c0 + al * ya, c0 + al * ya, vw * ya, wr * ar, m);
    assert(ao * wo == wo * ao) by (nonlinear_arith);
    assert(al * wl == wl * al) by (nonlinear_arith);
}

/// `t_2` is what the verifier can compute from the commitments, `⟨w_V, v⟩ + w_c + δ`, and what
/// the gates and the constraints are off by, weighted with the powers of `y` and `z`.
pub proof fn lemma_t2_of_values(
    k: Vectors,
    n: nat,
    l1: Seq<int>,
    r0: Seq<int>,
    r1: Seq<int>,
    constraints: Seq<Lc>,
    w: Values,
    m_: nat,
    z: int,
    w_v: Seq<int>,
    w_c: int,
)
    requires
        vectors_len(k, n),
        n <= usize::MAX,
        m_ <= usize::MAX,
        l1.len() == n,
        r0.len() == n,
        r1.len() == n,
        w_v.len() == m_,
        w.v.len() == m_,
        w.a_l == k.a_l,
        w.a_r == k.a_r,
        w.a_o == k.a_o,
        forall|q: int| 0 <= q < constraints.len() ==> lc_in(#[trigger] constraints[q], n, m_),
        forall|i: int|
            0 <= i < n ==> cong(#[trigger] l1[i], k.a_l[i] + k.v[i] * k.w_r[i], fp_order()),
        forall|i: int| 0 <= i < n ==> cong(#[trigger] r0[i], k.w_o[i] - k.y[i], fp_order()),
        forall|i: int|
            0 <= i < n ==> cong(#[trigger] r1[i], k.y[i] * k.a_r[i] + k.w_l[i], fp_order()),
        forall|i: int|
            0 <= i < n ==> cong(
                #[trigger] k.w_l[i],
                flat(constraints, Variable::MultiplierLeft(i as usize), z),
                fp_order(),
            ),
        forall|i: int|
            0 <= i < n ==> cong(
                #[trigger] k.w_r[i],
                flat(constraints, Variable::MultiplierRight(i as usize), z),
                fp_order(),
            ),
        forall|i: int|
            0 <= i < n ==> cong(
                #[trigger] k.w_o[i],
                flat(constraints, Variable::MultiplierOutput(i as usize), z),
                fp_order(),
            ),
        forall|j: int|
            0 <= j < m_ ==> cong(
                #[trigger] w_v[j],
                -flat(constraints, Variable::Committed(j as usize), z),
                fp_order(),
            ),
        cong(w_c, -flat(constraints, Variable::One, z), fp_order()),
    ensures
        cong(
            dot(k.a_o, r0) + dot(l1, r1),
            dot(w_v, w.v) + w_c + delta(k, n) + flat_eval(constraints, w, z) + sigma(
                n,
                |i: int| (k.a_l[i] * k.a_r[i] - k.a_o[i]) * k.y[i],
            ),
            fp_order(),
        ),
{
    let p = fp_order();
    lemma_fp_order();
    // coordinate by coordinate
    let f1 = |i: int| k.a_o[i] * r0[i];
    let f2 = |i: int| l1[i] * r1[i];
    let f = |i: int| f1(i) + f2(i);
    let gl = |i: int| k.w_l[i] * k.a_l[i];
    let gr = |i: int| k.w_r[i] * k.a_r[i];
    let go = |i: int| k.w_o[i] * k.a_o[i];
    let gd = |i: int| (k.v[i] * k.w_r[i]) * k.w_l[i];
    let s1 = |i: int| gl(i) + gr(i);
    let s2 = |i: int| s1(i) + go(i);
    let s3 = |i: int| s2(i) + gd(i);
    let ge = |i: int| (k.a_l[i] * k.a_r[i] - k.a_o[i]) * k.y[i];
    let g = |i: int| s3(i) + ge(i);
    assert forall|i: int| 0 <= i < n implies cong(#[trigger] f(i), g(i), p) by {
        assert(cong(l1[i], k.a_l[i] + k.v[i] * k.w_r[i], p));
        assert(cong(r0[i], k.w_o[i] - k.y[i], p));
        assert(cong(r1[i], k.y[i] * k.a_r[i] + k.w_l[i], p));
        lemma_cong_mul(k.a_o[i], k.a_o[i], r0[i], k.w_o[i] - k.y[i], p);
        lemma_cong_mul(
            l1[i],
            k.a_l[i] + k.v[i] * k.w_r[i],
            r1[i],
            k.y[i] * k.a_r[i] + k.w_l[i],
            p,
        );
        lemma_cong_add(
            k.a_o[i] * r0[i],
            k.a_o[i] * (k.w_o[i] - k.y[i]),
            l1[i] * r1[i],
            (k.a_l[i] + k.v[i] * k.w_r[i]) * (k.y[i] * k.a_r[i] + k.w_l[i]),
            p,
        );
        lemma_t2_pointwise(k, n, i);
    }
    lemma_sigma_cong(n, f, g, p);
    lemma_sigma_add(n, f1, f2);
    lemma_sigma_add(n, s3, ge);
    lemma_sigma_add(n, s2, gd);
    lemma_sigma_add(n, s1, go);
    lemma_sigma_add(n, gl, gr);
    lemma_sigma_eq(n, f1, |i: int| k.a_o[i] * r0[i]);
    lemma_sigma_eq(n, f2, |i: int| l1[i] * r1[i]);
    lemma_sigma_eq(n, gd, |i: int| (k.v[i] * k.w_r[i]) * k.w_l[i]);
    lemma_sigma_eq(n, ge, |i: int| (k.a_l[i] * k.a_r[i] - k.a_o[i]) * k.y[i]);
    // the flattened constraints
    law_flatten(constraints, w, n, m_, z);
    let fl = |i: int| flat(constraints, Variable::MultiplierLeft(i as usize), z) * w.a_l[i];
    let fr = |i: int| flat(constraints, Variable::MultiplierRight(i as usize), z) * w.a_r[i];
    let fo = |i: int| flat(constraints, Variable::MultiplierOutput(i as usize), z) * w.a_o[i];
    let fv = |j: int| flat(constraints, Variable::Committed(j as usize), z) * w.v[j];
    let fw = |x: Variable| flat(constraints, x, z);
    lemma_sigma_eq(n, fl, |i: int| fw(Variable::MultiplierLeft(i as usize)) * w.a_l[i]);
    lemma_sigma_eq(n, fr, |i: int| fw(Variable::MultiplierRight(i as usize)) * w.a_r[i]);
    lemma_sigma_eq(n, fo, |i: int| fw(Variable::MultiplierOutput(i as usize)) * w.a_o[i]);
    lemma_sigma_eq(m_, fv, |j: int| fw(Variable::Committed(j as usize)) * w.v[j]);
    assert(weigh(fw, w, n, m_) == sigma(n, fl) + sigma(n, fr) + sigma(n, fo) + sigma(m_, fv) + flat(
        constraints,
        Variable::One,
        z,
    ));
    let fe = flat_eval(constraints, w, z);
    assert(weigh(fw, w, n, m_) == fe) by {
        assert(weigh(|x: Variable| flat(constraints, x, z), w, n, m_) == fe);
    }
    assert forall|i: int| 0 <= i < n implies cong(#[trigger] gl(i), fl(i), p) by {
        assert(cong(k.w_l[i], flat(constraints, Variable::MultiplierLeft(i as usize), z), p));
        lemma_cong_mul(
            k.w_l[i],
            flat(constraints, Variable::MultiplierLeft(i as usize), z),
            k.a_l[i],
            k.a_l[i],
            p,
        );
    }
    assert forall|i: int| 0 <= i < n implies cong(#[trigger] gr(i), fr(i), p) by {
        assert(cong(k.w_r[i], flat(constraints, Variable::MultiplierRight(i as usize), z), p));
        lemma_cong_mul(
            k.w_r[i],
            flat(constraints, Variable::MultiplierRight(i as usize), z),
            k.a_r[i],
            k.a_r[i],
            p,
        );
    }
    assert forall|i: int| 0 <= i < n implies cong(#[trigger] go(i), fo(i), p) by {
        assert(cong(k.w_o[i], flat(constraints, Variable::MultiplierOutput(i as usize), z), p));
        lemma_cong_mul(
            k.w_o[i],
            flat(constraints, Variable::MultiplierOutput(i as usize), z),
            k.a_o[i],
            k.a_o[i],
            p,
        );
    }
    lemma_sigma_cong(n, gl, fl, p);
    lemma_sigma_cong(n, gr, fr, p);
    lemma_sigma_cong(n, go, fo, p);
    let gv = |j: int| w_v[j] * w.v[j];
    let nv = |j: int| (-1) * fv(j);
    assert forall|j: int| 0 <= j < m_ implies cong(#[trigger] gv(j), nv(j), p) by {
        let e = flat(constraints, Variable::Committed(j as usize), z);
        let x = w.v[j];
        assert(cong(w_v[j], -e, p));
        lemma_cong_mul(w_v[j], -e, x, x, p);
        assert((-e) * x == (-1) * (e * x)) by (nonlinear_arith);
    }
    lemma_sigma_cong(m_, gv, nv, p);
    lemma_sigma_scale(m_, -1, fv);
    lemma_sigma_eq(m_, gv, |j: int| w_v[j] * w.v[j]);
    let sv = sigma(m_, fv);
    assert((-1) * sv == -sv) by (nonlinear_arith);
    // sum up
    let one = flat(constraints, Variable::One, z);
    let lro = sigma(n, fl) + sigma(n, fr) + sigma(n, fo);
    lemma_cong_add(sigma(n, gl), sigma(n, fl), sigma(n, gr), sigma(n, fr), p);
    lemma_cong_add(sigma(n, gl) + sigma(n, gr), sigma(n, fl) + sigma(n, fr), sigma(n, go), sigma(
        n,
        fo,
    ), p);
    // lro = fe − sv − one
    assert(lro + sv + one == fe);
    lemma_cong_add(dot(w_v, w.v), -sv, w_c, -one, p);
    lemma_cong_add(dot(w_v, w.v) + w_c, -sv - one, fe, fe, p);
    let d = delta(k, n) + sigma(n, ge);
    lemma_cong_add(
        sigma(n, gl) + sigma(n, gr) + sigma(n, go),
        dot(w_v, w.v) + w_c + fe,
        d,
        d,
        p,
    );
}

/// Where the gates and the constraints hold, `t_2` is what the verifier can compute
/// from the commitments: `⟨w_V, v⟩ + w_c + δ`.
pub proof fn lemma_t2(
    k: Vectors,
    n: nat,
    l1: Seq<int>,
    r0: Seq<int>,
    r1: Seq<int>,
    constraints: Seq<Lc>,
    w: Values,
    m_: nat,
    z: int,
    w_v: Seq<int>,
    w_c: int,
)
    requires
        vectors_len(k, n),
        n <= usize::MAX,
        m_ <= usize::MAX,
        l1.len() == n,
        r0.len() == n,
        r1.len() == n,
        w_v.len() == m_,
        w.v.len() == m_,
        w.a_l == k.a_l,
        w.a_r == k.a_r,
        w.a_o == k.a_o,
        gates_hold(w),
        forall|q: int| 0 <= q < constraints.len() ==> lc_in(#[trigger] constraints[q], n, m_),
        forall|q: int|
            0 <= q < constraints.len() ==> cong(lc_eval(#[trigger] constraints[q], w), 0, fp_order()),
        forall|i: int|
            0 <= i < n ==> cong(#[trigger] l1[i], k.a_l[i] + k.v[i] * k.w_r[i], fp_order()),
        forall|i: int| 0 <= i < n ==> cong(#[trigger] r0[i], k.w_o[i] - k.y[i], fp_order()),
        forall|i: int|
            0 <= i < n ==> cong(#[trigger] r1[i], k.y[i] * k.a_r[i] + k.w_l[i], fp_order()),
        forall|i: int|
            0 <= i < n ==> cong(
                #[trigger] k.w_l[i],
                flat(constraints, Variable::MultiplierLeft(i as usize), z),
                fp_order(),
            ),
        forall|i: int|
            0 <= i < n ==> cong(
                #[trigger] k.w_r[i],
                flat(constraints, Variable::MultiplierRight(i as usize), z),
                fp_order(),
            ),
        forall|i: int|
            0 <= i < n ==> cong(
                #[trigger] k.w_o[i],
                flat(constraints, Variable::MultiplierOutput(i as usize), z),
                fp_order(),
            ),
        forall|j: int|
            0 <= j < m_ ==> cong(
                #[trigger] w_v[j],
                -flat(constraints, Variable::Committed(j as usize), z),
                fp_order(),
            ),
        cong(w_c, -flat(constraints, Variable::One, z), fp_order()),
    ensures
        cong(
            dot(k.a_o, r0) + dot(l1, r1),
            dot(w_v, w.v) + w_c + delta(k, n),
            fp_order(),
        ),
{
    let p = fp_order();
    lemma_fp_order();
    lemma_t2_of_values(k, n, l1, r0, r1, constraints, w, m_, z, w_v, w_c);
    law_flatten(constraints, w, n, m_, z);
    let ge = |i: int| (k.a_l[i] * k.a_r[i] - k.a_o[i]) * k.y[i];
    let none = |i: int| 0int;
    assert forall|i: int| 0 <= i < n implies cong(#[trigger] ge(i), none(i), p) by {
        assert(cong(w.a_l[i] * w.a_r[i], w.a_o[i], p));
        let (e, o, y) = (k.a_l[i] * k.a_r[i], k.a_o[i], k.y[i]);
        lemma_cong_sub(e, o, o, o, p);
        lemma_cong_mul(e - o, 0, y, y, p);
        assert(0 * y == 0);
    }
    lemma_sigma_cong(n, ge, none, p);
    lemma_sigma_zero(n, none);
    let rest = dot(w_v, w.v) + w_c + delta(k, n);
    let fe = flat_eval(constraints, w, z);
    lemma_cong_add(fe, 0, sigma(n, ge), 0, p);
    lemma_cong_add(rest, rest, fe + sigma(n, ge), 0, p);
}

// ─── padding ────────────────────────────────────────────────────────────────

/// `v` with zeros behind it, up to length `n`.
pub open spec fn pad(v: Seq<int>, n: nat) -> Seq<int> {
    Seq::new(
        n,
        |i: int|
            if i < v.len() {
                v[i]
            } else {
                0
            },
    )
}

/// The values with unused gates behind them.
pub open spec fn pad_values(w: Values, n: nat) -> Values {
    Values { a_l: pad(w.a_l, n), a_r: pad(w.a_r, n), a_o: pad(w.a_o, n), v: w.v }
}

/// Unused gates do not change the value of a constraint.
pub proof fn lemma_pad_values(w: Values, n: nat, constraints: Seq<Lc>, m: nat)
    requires
        w.a_l.len() == w.a_r.len() == w.a_o.len(),
        w.a_l.len() <= n,
        forall|q: int|
            0 <= q < constraints.len() ==> lc_in(#[trigger] constraints[q], w.a_l.len(), m),
    ensures
        forall|q: int|
            0 <= q < constraints.len() ==> lc_in(#[trigger] constraints[q], n, m) && lc_eval(
                constraints[q],
                pad_values(w, n),
            ) == lc_eval(constraints[q], w),
{
    let u = pad_values(w, n);
    assert forall|q: int| 0 <= q < constraints.len() implies lc_in(#[trigger] constraints[q], n, m)
        && lc_eval(constraints[q], u) == lc_eval(constraints[q], w) by {
        let lc = constraints[q];
        assert(lc_in(constraints[q], w.a_l.len(), m));
        assert forall|k: int| 0 <= k < lc.len() implies wire((#[trigger] lc[k]).0, u) == wire(
            lc[k].0,
            w,
        ) && var_in(lc[k].0, n, m) by {
            assert(var_in(lc[k].0, w.a_l.len(), m));
        }
        lemma_lc_eval_same(lc, u, w);
    }
}

/// Unused gates hold, and do not change the value of a constraint.
pub proof fn lemma_pad(w: Values, n: nat, constraints: Seq<Lc>, m: nat)
    requires
        w.a_l.len() == w.a_r.len() == w.a_o.len(),
        w.a_l.len() <= n,
        gates_hold(w),
        forall|q: int|
            0 <= q < constraints.len() ==> lc_in(#[trigger] constraints[q], w.a_l.len(), m),
        forall|q: int|
            0 <= q < constraints.len() ==> cong(lc_eval(#[trigger] constraints[q], w), 0, fp_order()),
    ensures
        gates_hold(pad_values(w, n)),
        forall|q: int| 0 <= q < constraints.len() ==> lc_in(#[trigger] constraints[q], n, m),
        forall|q: int|
            0 <= q < constraints.len() ==> cong(
                lc_eval(#[trigger] constraints[q], pad_values(w, n)),
                0,
                fp_order(),
            ),
{
    let u = pad_values(w, n);
    assert forall|i: int| 0 <= i < u.a_o.len() implies cong(
        u.a_l[i] * u.a_r[i],
        #[trigger] u.a_o[i],
        fp_order(),
    ) by {
        if i < w.a_o.len() {
            assert(cong(w.a_l[i] * w.a_r[i], w.a_o[i], fp_order()));
        } else {
            assert(0int * 0int == 0);
        }
    }
    assert forall|q: int| 0 <= q < constraints.len() implies lc_in(#[trigger] constraints[q], n, m)
        && lc_eval(constraints[q], u) == lc_eval(constraints[q], w) by {
        let lc = constraints[q];
        assert(lc_in(constraints[q], w.a_l.len(), m));
        assert forall|k: int| 0 <= k < lc.len() implies wire((#[trigger] lc[k]).0, u) == wire(
            lc[k].0,
            w,
        ) && var_in(lc[k].0, n, m) by {
            assert(var_in(lc[k].0, w.a_l.len(), m));
        }
        lemma_lc_eval_same(lc, u, w);
    }
    assert forall|q: int| 0 <= q < constraints.len() implies cong(
        lc_eval(#[trigger] constraints[q], u),
        0,
        fp_order(),
    ) by {
        assert(lc_in(constraints[q], n, m));
        assert(cong(lc_eval(constraints[q], w), 0, fp_order()));
    }
}

// ─── the check of an honest proof vanishes ──────────────────────────────────

/// The part of the check that the inner-product argument is about. The capital
/// letters are exponents of commitments; `gl`, `go`, `gs`, `ha`, `hs` are inner
/// products of the bases with `a_L`, `a_O`, `s_L`, `a_R`, `s_R`; `gg` and `hh` are
/// those with the scalars of the check.
pub proof fn lemma_ipa_part(
    lb: int,
    lbb: int,
    x: int,
    w: int,
    alpha: int,
    beta: int,
    rho: int,
    e: int,
    ai: int,
    ao: int,
    s: int,
    gl: int,
    go: int,
    gs: int,
    gg: int,
    ha: int,
    hs: int,
    hh: int,
    dl: int,
    dr: int,
    sg: int,
    sh: int,
    rounds: int,
    q: int,
    lr: int,
    tx: int,
    a: int,
    b: int,
)
    requires
        cong(ai, lbb * alpha + gl + ha, fp_order()),
        cong(ao, lbb * beta + go, fp_order()),
        cong(s, lbb * rho + gs + hs, fp_order()),
        cong(e, x * alpha + (x * x) * beta + ((x * x) * x) * rho, fp_order()),
        cong(x * gl + (x * x) * go + ((x * x) * x) * gs + gg, dl - a * sg, fp_order()),
        cong(x * ha + ((x * x) * x) * hs + hh, dr - b * sh, fp_order()),
        cong(dl + dr + q * lr, a * sg + b * sh + q * (a * b) - rounds, fp_order()),
        cong(q, lb * w, fp_order()),
        cong(tx, lr, fp_order()),
    ensures
        cong(
            x * ai + (x * x) * ao + ((x * x) * x) * s + gg + hh + rounds + lb * (w * (tx - a * b))
                + lbb * (-e),
            0,
            fp_order(),
        ),
{
    let m = fp_order();
    lemma_fp_order();
    let (x2, x3) = (x * x, (x * x) * x);
    lemma_cong_mul(x, x, ai, lbb * alpha + gl + ha, m);
    lemma_cong_mul(x2, x2, ao, lbb * beta + go, m);
    lemma_cong_mul(x3, x3, s, lbb * rho + gs + hs, m);
    let (p1, p2, p3) = (lbb * alpha, lbb * beta, lbb * rho);
    assert(x * (p1 + gl + ha) == x * p1 + x * gl + x * ha) by (nonlinear_arith);
    assert(x2 * (p2 + go) == x2 * p2 + x2 * go) by (nonlinear_arith);
    assert(x3 * (p3 + gs + hs) == x3 * p3 + x3 * gs + x3 * hs) by (nonlinear_arith);
    let big = x * alpha + x2 * beta + x3 * rho;
    assert(x * (lbb * alpha) == lbb * (x * alpha)) by (nonlinear_arith);
    assert(x2 * (lbb * beta) == lbb * (x2 * beta)) by (nonlinear_arith);
    assert(x3 * (lbb * rho) == lbb * (x3 * rho)) by (nonlinear_arith);
    let (q1, q2, q3) = (x * alpha, x2 * beta, x3 * rho);
    assert(lbb * (q1 + q2 + q3) == lbb * q1 + lbb * q2 + lbb * q3) by (nonlinear_arith);
    // commitments
    let r1 = x * p1 + x * gl + x * ha;
    let r2 = x2 * p2 + x2 * go;
    let r3 = x3 * p3 + x3 * gs + x3 * hs;
    lemma_cong_add(x * ai, r1, x2 * ao, r2, m);
    lemma_cong_add(x * ai + x2 * ao, r1 + r2, x3 * s, r3, m);
    let com = x * ai + x2 * ao + x3 * s;
    let (gside, hside) = (x * gl + x2 * go + x3 * gs, x * ha + x3 * hs);
    assert(r1 + r2 + r3 == lbb * big + gside + hside);
    // with the scalars of the check
    lemma_cong_add(com, lbb * big + gside + hside, gg + hh, gg + hh, m);
    lemma_cong_add(gside + gg, dl - a * sg, hside + hh, dr - b * sh, m);
    lemma_cong_add(
        lbb * big,
        lbb * big,
        gside + gg + hside + hh,
        dl - a * sg + dr - b * sh,
        m,
    );
    // com + gg + hh ≡ lbb·big + (dl − a·sg + dr − b·sh)
    let ip = dl - a * sg + dr - b * sh;
    let k = q * lr + a * sg + b * sh - rounds;
    lemma_cong_sub(dl + dr + q * lr, a * sg + b * sh + q * (a * b) - rounds, k, k, m);
    // ip + rounds ≡ q·ab − q·lr
    assert(cong(ip + rounds, q * (a * b) - q * lr, m));
    lemma_cong_mul(q, lb * w, a * b, a * b, m);
    lemma_cong_mul(q, lb * w, lr, tx, m);
    let qw = lb * w;
    let ab = a * b;
    lemma_cong_sub(q * ab, qw * ab, q * lr, qw * tx, m);
    lemma_cong_add(com + gg + hh, lbb * big + ip, rounds, rounds, m);
    lemma_cong_add(lbb * big, lbb * big, ip + rounds, qw * ab - qw * tx, m);
    assert(lb * (w * (tx - ab)) == qw * tx - qw * ab) by {
        assert(lb * (w * (tx - ab)) == (lb * w) * (tx - ab)) by (nonlinear_arith);
        assert(qw * (tx - ab) == qw * tx - qw * ab) by (nonlinear_arith);
    }
    let lw = lb * (w * (tx - ab));
    lemma_cong_add(com + gg + hh + rounds, lbb * big + (qw * ab - qw * tx), lw, lw, m);
    lemma_cong_mul(lbb, lbb, e, big, m);
    assert(lbb * (-e) == -(lbb * e)) by (nonlinear_arith);
    lemma_cong_sub(com + gg + hh + rounds + lw, lbb * big, lbb * e, lbb * big, m);
}

/// The part of the check that the commitments to the coefficients of `t(x)` are
/// about, before it is weighted with the last challenge. `vv` is the inner product
/// of `w_V` with the exponents of the commitments.
pub proof fn lemma_t_part(
    lb: int,
    lbb: int,
    x: int,
    t1: int,
    t2: int,
    t3: int,
    t4: int,
    t5: int,
    t6: int,
    b1: int,
    b2: int,
    b3: int,
    b4: int,
    b5: int,
    b6: int,
    c1: int,
    c3: int,
    c4: int,
    c5: int,
    c6: int,
    wv: int,
    vv: int,
    dc: int,
    tx: int,
    tb: int,
)
    requires
        cong(c1, lb * t1 + lbb * b1, fp_order()),
        cong(c3, lb * t3 + lbb * b3, fp_order()),
        cong(c4, lb * t4 + lbb * b4, fp_order()),
        cong(c5, lb * t5 + lbb * b5, fp_order()),
        cong(c6, lb * t6 + lbb * b6, fp_order()),
        cong(vv, lb * wv + lbb * b2, fp_order()),
        cong(t2, wv + dc, fp_order()),
        cong(tx, t_sum(t1, t2, t3, t4, t5, t6, x), fp_order()),
        cong(tb, t_sum(b1, b2, b3, b4, b5, b6, x), fp_order()),
    ensures
        ({
            let (x2, x3) = (x * x, (x * x) * x);
            cong(
                lb * (x2 * dc - tx) + lbb * (-tb) + x2 * vv + x * c1 + x3 * c3 + (x3 * x) * c4 + (x3
                    * x2) * c5 + (x3 * x3) * c6,
                0,
                fp_order(),
            )
        }),
{
    let m = fp_order();
    lemma_fp_order();
    let (x2, x3) = (x * x, (x * x) * x);
    let (x4, x5, x6) = (x3 * x, x3 * x2, x3 * x3);
    lemma_lin_term(lb, lbb, x, c1, t1, b1);
    lemma_lin_term(lb, lbb, x2, vv, wv, b2);
    lemma_lin_term(lb, lbb, x3, c3, t3, b3);
    lemma_lin_term(lb, lbb, x4, c4, t4, b4);
    lemma_lin_term(lb, lbb, x5, c5, t5, b5);
    lemma_lin_term(lb, lbb, x6, c6, t6, b6);
    // sums
    let (l1, l2, l3, l4, l5, l6) = (x * t1, x2 * wv, x3 * t3, x4 * t4, x5 * t5, x6 * t6);
    let (k1, k2, k3, k4, k5, k6) = (x * b1, x2 * b2, x3 * b3, x4 * b4, x5 * b5, x6 * b6);
    lemma_cong_add(x * c1, lb * l1 + lbb * k1, x2 * vv, lb * l2 + lbb * k2, m);
    let s2 = lb * l1 + lbb * k1 + (lb * l2 + lbb * k2);
    lemma_cong_add(x * c1 + x2 * vv, s2, x3 * c3, lb * l3 + lbb * k3, m);
    let s3 = s2 + (lb * l3 + lbb * k3);
    lemma_cong_add(x * c1 + x2 * vv + x3 * c3, s3, x4 * c4, lb * l4 + lbb * k4, m);
    let s4 = s3 + (lb * l4 + lbb * k4);
    lemma_cong_add(x * c1 + x2 * vv + x3 * c3 + x4 * c4, s4, x5 * c5, lb * l5 + lbb * k5, m);
    let s5 = s4 + (lb * l5 + lbb * k5);
    lemma_cong_add(
        x * c1 + x2 * vv + x3 * c3 + x4 * c4 + x5 * c5,
        s5,
        x6 * c6,
        lb * l6 + lbb * k6,
        m,
    );
    let s6 = s5 + (lb * l6 + lbb * k6);
    let ls = l1 + l2 + l3 + l4 + l5 + l6;
    let ks = k1 + k2 + k3 + k4 + k5 + k6;
    assert(lb * (l1 + l2 + l3 + l4 + l5 + l6) == lb * l1 + lb * l2 + lb * l3 + lb * l4 + lb * l5
        + lb * l6) by (nonlinear_arith);
    assert(lbb * (k1 + k2 + k3 + k4 + k5 + k6) == lbb * k1 + lbb * k2 + lbb * k3 + lbb * k4 + lbb
        * k5 + lbb * k6) by (nonlinear_arith);
    assert(s6 == lb * ls + lbb * ks);
    // ls + x²·dc ≡ t(x)
    lemma_cong_mul(x2, x2, t2, wv + dc, m);
    assert(x2 * (wv + dc) == x2 * wv + x2 * dc) by (nonlinear_arith);
    let rest = l1 + l3 + l4 + l5 + l6;
    lemma_cong_add(rest, rest, x2 * t2, x2 * wv + x2 * dc, m);
    assert(cong(tx, ls + x2 * dc, m));
    lemma_cong_mul(lb, lb, tx, ls + x2 * dc, m);
    let xd = x2 * dc;
    assert(lb * (ls + xd) == lb * ls + lb * xd) by (nonlinear_arith);
    assert(lb * (xd - tx) == lb * xd - lb * tx) by (nonlinear_arith);
    lemma_cong_mul(lbb, lbb, tb, ks, m);
    assert(lbb * (-tb) == -(lbb * tb)) by (nonlinear_arith);
    let c = x * c1 + x2 * vv + x3 * c3 + x4 * c4 + x5 * c5 + x6 * c6;
    lemma_cong_sub(c, lb * ls + lbb * ks, lbb * tb, lbb * ks, m);
    lemma_cong_add(c - lbb * tb, lb * ls, lb * xd, lb * xd, m);
    lemma_cong_sub(c - lbb * tb + lb * xd, lb * ls + lb * xd, lb * tx, lb * ls + lb * xd, m);
}

/// `y·(lb·t + lbb·b)`, multiplied out.
proof fn lemma_lin_term(lb: int, lbb: int, y: int, c: int, t: int, b: int)
    requires
        cong(c, lb * t + lbb * b, fp_order()),
    ensures
        cong(y * c, lb * (y * t) + lbb * (y * b), fp_order()),
{
    lemma_fp_order();
    lemma_cong_mul(y, y, c, lb * t + lbb * b, fp_order());
    let (p, q) = (lb * t, lbb * b);
    assert(y * (p + q) == y * p + y * q) by (nonlinear_arith);
    assert(y * (lb * t) == lb * (y * t)) by (nonlinear_arith);
    assert(y * (lbb * b) == lbb * (y * b)) by (nonlinear_arith);
}

} // verus!
