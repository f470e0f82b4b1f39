//! What the flattened constraints and the coefficient `t_2` say of the values of a circuit:
//! they vanish, as polynomials in the challenges, only where every gate and every constraint
//! holds.
use crate::algebra::{
    cong, dot, is_prime, lemma_cong_add, lemma_cong_mod, lemma_cong_mul, lemma_cong_sub,
    lemma_poly_eval_cons, lemma_pow_succ, lemma_sigma_cong, lemma_sigma_eq, lemma_sigma_scale,
    poly_eval, sigma,
};
use crate::field::{fp_order, fps, lemma_fp_order};
use crate::poly_laws::{incongruent, law_few_roots, vanishes};
use crate::zk::r1cs::{
    flat, flat_eval, flattened, law_flatten, lc_eval, lc_in, weigh, wire, FlattenedConstraints, Lc,
    Values, Variable,
};
use vstd::arithmetic::power::pow;
use vstd::prelude::*;

verus! {

/// The values of the constraints: of each, the sum of its terms.
pub open spec fn constraint_values(constraints: Seq<Lc>, w: Values) -> Seq<int> {
    Seq::new(
        constraints.len(),
        |q: int|
            sigma(
                constraints[q].len(),
                |k: int| constraints[q][k].1 * wire(constraints[q][k].0, w),
            ),
    )
}

/// What the gates are off by: `a_L · a_R − a_O`.
pub open spec fn gate_values(w: Values) -> Seq<int> {
    Seq::new(w.a_o.len(), |i: int| w.a_l[i] * w.a_r[i] - w.a_o[i])
}

/// The value of a linear combination is the sum of its terms.
pub proof fn lemma_lc_eval_sum(lc: Lc, w: Values)
    ensures
        lc_eval(lc, w) == sigma(lc.len(), |k: int| lc[k].1 * wire(lc[k].0, w)),
    decreases lc.len(),
{
    if lc.len() > 0 {
        let rest = lc.drop_last();
        lemma_lc_eval_sum(rest, w);
        lemma_sigma_eq(
            rest.len(),
            |k: int| rest[k].1 * wire(rest[k].0, w),
            |k: int| lc[k].1 * wire(lc[k].0, w),
        );
    }
}

/// A polynomial with one more coefficient.
proof fn lemma_poly_eval_push(c: Seq<int>, x: int, z: int)
    ensures
        poly_eval(c.push(x), z) == poly_eval(c, z) + x * pow(z, c.len()),
{
    let d = c.push(x);
    lemma_sigma_eq(
        c.len(),
        |i: int| c[i] * pow(z, i as nat),
        |i: int| d[i] * pow(z, i as nat),
    );
}

/// The weighted sum of the constraints is a polynomial in `z` with their values as
/// coefficients.
pub proof fn lemma_flat_eval(constraints: Seq<Lc>, w: Values, z: int)
    ensures
        flat_eval(constraints, w, z) == z * poly_eval(constraint_values(constraints, w), z),
    decreases constraints.len(),
{
    let vs = constraint_values(constraints, w);
    if constraints.len() == 0 {
        assert(poly_eval(vs, z) == 0);
        assert(z * 0 == 0);
    } else {
        let rest = constraints.drop_last();
        let us = constraint_values(rest, w);
        let v = lc_eval(constraints.last(), w);
        let n = us.len();
        lemma_flat_eval(rest, w, z);
        lemma_lc_eval_sum(constraints.last(), w);
        assert(vs =~= us.push(v));
        lemma_poly_eval_push(us, v, z);
        lemma_pow_succ(z, n);
        let (e, p) = (poly_eval(us, z), pow(z, n));
        assert(z * (e + v * p) == z * e + v * (p * z)) by (nonlinear_arith);
    }
}

/// Flattening keeps every constraint: weighing the wires with what [`crate::zk::r1cs::flatten`]
/// gives for the challenge `z` is `z` times the polynomial whose coefficients are the values
/// of the constraints, at `z`.
pub proof fn law_flattening_is_a_polynomial(
    f: FlattenedConstraints,
    constraints: Seq<Lc>,
    w: Values,
    n: nat,
    m: nat,
    z: int,
)
    requires
        flattened(f, constraints, n, m, z),
        forall|q: int| 0 <= q < constraints.len() ==> lc_in(#[trigger] constraints[q], n, m),
        n <= usize::MAX,
        m <= usize::MAX,
        w.a_l.len() == n,
        w.a_r.len() == n,
        w.a_o.len() == n,
        w.v.len() == m,
    ensures
        cong(
            dot(fps(f.w_l@), w.a_l) + dot(fps(f.w_r@), w.a_r) + dot(fps(f.w_o@), w.a_o) - dot(
                fps(f.w_v@),
                w.v,
            ) - f.w_c@,
            z * poly_eval(constraint_values(constraints, w), z),
            fp_order(),
        ),
{
    let p = fp_order();
    lemma_fp_order();
    law_flatten(constraints, w, n, m, z);
    lemma_flat_eval(constraints, w, z);
    let fw = |x: Variable| flat(constraints, x, z);
    let fl = |i: int| fw(Variable::MultiplierLeft(i as usize)) * w.a_l[i];
    let fr = |i: int| fw(Variable::MultiplierRight(i as usize)) * w.a_r[i];
    let fo = |i: int| fw(Variable::MultiplierOutput(i as usize)) * w.a_o[i];
    let fv = |j: int| fw(Variable::Committed(j as usize)) * w.v[j];
    let one = fw(Variable::One);
    assert(weigh(fw, w, n, m) == sigma(n, fl) + sigma(n, fr) + sigma(n, fo) + sigma(m, fv) + one)
        by {
        lemma_sigma_eq(n, fl, |i: int| fw(Variable::MultiplierLeft(i as usize)) * w.a_l[i]);
        lemma_sigma_eq(n, fr, |i: int| fw(Variable::MultiplierRight(i as usize)) * w.a_r[i]);
        lemma_sigma_eq(n, fo, |i: int| fw(Variable::MultiplierOutput(i as usize)) * w.a_o[i]);
        lemma_sigma_eq(m, fv, |j: int| fw(Variable::Committed(j as usize)) * w.v[j]);
    }
    let (wl, wr, wo, wv) = (fps(f.w_l@), fps(f.w_r@), fps(f.w_o@), fps(f.w_v@));
    let gl = |i: int| wl[i] * w.a_l[i];
    let gr = |i: int| wr[i] * w.a_r[i];
    let go = |i: int| wo[i] * w.a_o[i];
    let gv = |j: int| wv[j] * w.v[j];
    let nv = |j: int| (-1) * fv(j);
    assert forall|i: int| 0 <= i < n implies cong(#[trigger] gl(i), fl(i), p) by {
        let e = fw(Variable::MultiplierLeft(i as usize));
        assert(f.w_l@[i]@ == e % p);
        lemma_cong_mod(e, p);
        lemma_cong_mul(wl[i], e, w.a_l[i], w.a_l[i], p);
    }
    assert forall|i: int| 0 <= i < n implies cong(#[trigger] gr(i), fr(i), p) by {
        let e = fw(Variable::MultiplierRight(i as usize));
        assert(f.w_r@[i]@ == e % p);
        lemma_cong_mod(e, p);
        lemma_cong_mul(wr[i], e, w.a_r[i], w.a_r[i], p);
    }
    assert forall|i: int| 0 <= i < n implies cong(#[trigger] go(i), fo(i), p) by {
        let e = fw(Variable::MultiplierOutput(i as usize));
        assert(f.w_o@[i]@ == e % p);
        lemma_cong_mod(e, p);
        lemma_cong_mul(wo[i], e, w.a_o[i], w.a_o[i], p);
    }
    assert forall|j: int| 0 <= j < m implies cong(#[trigger] gv(j), nv(j), p) by {
        let (e, x) = (fw(Variable::Committed(j as usize)), w.v[j]);
        assert(f.w_v@[j]@ == (-e) % p);
        lemma_cong_mod(-e, p);
        lemma_cong_mul(wv[j], -e, x, x, p);
        assert((-e) * x == (-1) * (e * x)) by (nonlinear_arith);
    }
    lemma_sigma_cong(n, gl, fl, p);
    lemma_sigma_cong(n, gr, fr, p);
    lemma_sigma_cong(n, go, fo, p);
    lemma_sigma_cong(m, gv, nv, p);
    lemma_sigma_scale(m, -1, fv);
    let sv = sigma(m, fv);
    assert((-1) * sv == -sv) by (nonlinear_arith);
    lemma_sigma_eq(n, gl, |i: int| wl[i] * w.a_l[i]);
    lemma_sigma_eq(n, gr, |i: int| wr[i] * w.a_r[i]);
    lemma_sigma_eq(n, go, |i: int| wo[i] * w.a_o[i]);
    lemma_sigma_eq(m, gv, |j: int| wv[j] * w.v[j]);
    lemma_cong_add(sigma(n, gl), sigma(n, fl), sigma(n, gr), sigma(n, fr), p);
    let (g2, f2) = (sigma(n, gl) + sigma(n, gr), sigma(n, fl) + sigma(n, fr));
    lemma_cong_add(g2, f2, sigma(n, go), sigma(n, fo), p);
    lemma_cong_sub(g2 + sigma(n, go), f2 + sigma(n, fo), dot(wv, w.v), -sv, p);
    lemma_cong_mod(-one, p);
    lemma_cong_sub(
        g2 + sigma(n, go) - dot(wv, w.v),
        f2 + sigma(n, fo) + sv,
        f.w_c@,
        -one,
        p,
    );
}

/// Flattening loses no constraint: of values that violate a constraint, wherever it stands in
/// the list, the flattened sum vanishes for no more values of the challenge than there are
/// constraints.
pub proof fn law_flattening_loses_no_constraint(
    fs: Seq<FlattenedConstraints>,
    zs: Seq<int>,
    constraints: Seq<Lc>,
    w: Values,
    n: nat,
    m: nat,
    bad: int,
)
    requires
        is_prime(fp_order()),
        forall|q: int| 0 <= q < constraints.len() ==> lc_in(#[trigger] constraints[q], n, m),
        n <= usize::MAX,
        m <= usize::MAX,
        w.a_l.len() == n,
        w.a_r.len() == n,
        w.a_o.len() == n,
        w.v.len() == m,
        0 <= bad < constraints.len(),
        !cong(lc_eval(constraints[bad], w), 0, fp_order()),
        fs.len() == zs.len(),
        incongruent(zs, fp_order()),
        forall|i: int|
            0 <= i < zs.len() ==> flattened(#[trigger] fs[i], constraints, n, m, zs[i]) && cong(
                dot(fps(fs[i].w_l@), w.a_l) + dot(fps(fs[i].w_r@), w.a_r) + dot(
                    fps(fs[i].w_o@),
                    w.a_o,
                ) - dot(fps(fs[i].w_v@), w.v) - fs[i].w_c@,
                0,
                fp_order(),
            ),
    ensures
        zs.len() <= constraints.len(),
{
    let p = fp_order();
    let vs = constraint_values(constraints, w);
    let c = seq![0int] + vs;
    lemma_lc_eval_sum(constraints[bad], w);
    assert(c[bad + 1] == vs[bad]);
    assert(!vanishes(c, p));
    assert forall|i: int| 0 <= i < zs.len() implies cong(poly_eval(c, #[trigger] zs[i]), 0, p) by {
        assert(flattened(fs[i], constraints, n, m, zs[i]));
        law_flattening_is_a_polynomial(fs[i], constraints, w, n, m, zs[i]);
        lemma_poly_eval_cons(0, vs, zs[i]);
        let (e, z) = (poly_eval(vs, zs[i]), zs[i]);
        assert(e * z == z * e) by (nonlinear_arith);
    }
    law_few_roots(c, zs, p);
}

} // verus!
