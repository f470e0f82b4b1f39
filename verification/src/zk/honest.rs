//! Systems whose values satisfy them: what adding a gate or a constraint keeps.
use crate::algebra::{
    cong, lemma_cong_add, lemma_cong_mod, lemma_cong_mul, lemma_cong_sub, lemma_mod_reduced,
};
use crate::curves::{ed_a, ed_d, gin_on_curve, GinPoint};
use crate::field::{bit, fp_order, lemma_fp_order};
use crate::lagrange::inv;
use crate::zk::gadgets::{
    bit_out, bit_system, bit_value, bits_lc, bits_out, bits_system, canonical_system, choose4,
    compare_chain, const_fractions, constrained, decompose_out, decompose_system, div_out,
    div_system, eq_point_system, fits, gated, halves, larger, lemma_bits_lc_in, lemma_bits_system,
    lemma_compare_chain, mul_out, mul_system, on_curve_system, quotient, s_add, s_const, s_scale,
    s_shift, s_sub, value_bits, var_fractions, var_systems, window_out, window_system, xs, ys,
    Point, Scalar, System,
};
use crate::zk::r1cs::{
    circuit_ok, lc_add_term, lc_eval, lc_in, lc_mul, lc_neg, lc_var, lemma_lc_eval_add_term,
    lemma_lc_eval_concat, lemma_lc_eval_mul, lemma_lc_eval_neg, lemma_lc_eval_push,
    lemma_lc_eval_same, lemma_lc_eval_with_inputs, lemma_minus_one, minus_one, next_gate, satisfied,
    values_fit, var_in, wire, Lc, Values, Variable,
};
use vstd::arithmetic::power2::pow2;
use vstd::prelude::*;

verus! {

/// Every constraint uses wires that exist, and the prover's values satisfy the
/// circuit.
pub open spec fn good(sys: System) -> bool {
    &&& circuit_ok(sys.c)
    &&& sys.w matches Some(w) ==> satisfied(sys.c, w)
}

/// The combination has the value that the prover takes it to have.
pub open spec fn right(sys: System, s: Scalar) -> bool {
    &&& fits(sys, s)
    &&& sys.w matches Some(w) ==> cong(lc_eval(s.lc, w), s.w->Some_0, fp_order())
}

/// `v` begins with `u`.
pub open spec fn begins(u: Seq<int>, v: Seq<int>) -> bool {
    u.len() <= v.len() && v.take(u.len() as int) == u
}

/// `sys2` has the wires of `sys` with their values, the committed values of `sys`,
/// and some more gates.
pub open spec fn extends(sys: System, sys2: System) -> bool {
    &&& larger(sys, sys2)
    &&& sys.w matches Some(w) ==> (sys2.w matches Some(w2) ==> {
        &&& w.a_l.len() == sys.c.n_mul
        &&& w.a_r.len() == sys.c.n_mul
        &&& w.a_o.len() == sys.c.n_mul
        &&& w2.a_l.len() == sys2.c.n_mul
        &&& w2.a_r.len() == sys2.c.n_mul
        &&& w2.a_o.len() == sys2.c.n_mul
        &&& begins(w.a_l, w2.a_l)
        &&& begins(w.a_r, w2.a_r)
        &&& begins(w.a_o, w2.a_o)
        &&& w.v == w2.v
    })
}

pub proof fn lemma_extends_self(sys: System)
    requires
        sys.w matches Some(w) ==> values_fit(sys.c, w),
    ensures
        extends(sys, sys),
{
    if sys.w is Some {
        let w = sys.w->Some_0;
        assert(w.a_l.take(w.a_l.len() as int) =~= w.a_l);
        assert(w.a_r.take(w.a_r.len() as int) =~= w.a_r);
        assert(w.a_o.take(w.a_o.len() as int) =~= w.a_o);
    }
}

pub proof fn lemma_extends_trans(a: System, b: System, c: System)
    requires
        extends(a, b),
        extends(b, c),
    ensures
        extends(a, c),
{
    if a.w is Some && c.w is Some {
        let (u, v, w) = (a.w->Some_0, b.w->Some_0, c.w->Some_0);
        let n = u.a_l.len() as int;
        assert(w.a_l.take(n) =~= v.a_l.take(n)) by {
            assert(w.a_l.take(v.a_l.len() as int) == v.a_l);
        }
        assert(w.a_r.take(n) =~= v.a_r.take(n)) by {
            assert(w.a_r.take(v.a_r.len() as int) == v.a_r);
        }
        assert(w.a_o.take(n) =~= v.a_o.take(n)) by {
            assert(w.a_o.take(v.a_o.len() as int) == v.a_o);
        }
    }
}

/// More gates do not change the value of a combination.
pub proof fn lemma_extends_eval(sys: System, sys2: System, lc: Lc)
    requires
        extends(sys, sys2),
        sys.w is Some,
        lc_in(lc, sys.c.n_mul, sys.c.n_committed),
        sys.c.n_mul <= usize::MAX,
    ensures
        lc_eval(lc, sys2.w->Some_0) == lc_eval(lc, sys.w->Some_0),
{
    let (u, v) = (sys.w->Some_0, sys2.w->Some_0);
    assert forall|k: int| 0 <= k < lc.len() implies wire((#[trigger] lc[k]).0, v) == wire(
        lc[k].0,
        u,
    ) by {
        assert(var_in(lc[k].0, sys.c.n_mul, sys.c.n_committed));
        match lc[k].0 {
            Variable::MultiplierLeft(i) => {
                assert(v.a_l.take(u.a_l.len() as int)[i as int] == v.a_l[i as int]);
            },
            Variable::MultiplierRight(i) => {
                assert(v.a_r.take(u.a_r.len() as int)[i as int] == v.a_r[i as int]);
            },
            Variable::MultiplierOutput(i) => {
                assert(v.a_o.take(u.a_o.len() as int)[i as int] == v.a_o[i as int]);
            },
            _ => {},
        }
    }
    lemma_lc_eval_same(lc, v, u);
}

/// What is right stays right.
pub proof fn lemma_extends_right(sys: System, sys2: System, s: Scalar)
    requires
        extends(sys, sys2),
        right(sys, s),
        sys.c.n_mul <= usize::MAX,
    ensures
        right(sys2, s),
{
    assert forall|k: int| 0 <= k < s.lc.len() implies var_in(
        (#[trigger] s.lc[k]).0,
        sys2.c.n_mul,
        sys2.c.n_committed,
    ) by {
        assert(var_in(s.lc[k].0, sys.c.n_mul, sys.c.n_committed));
    }
    if sys.w is Some {
        lemma_extends_eval(sys, sys2, s.lc);
    }
}

// ─── gates and constraints ──────────────────────────────────────────────────

/// One more constraint, which the values satisfy.
pub proof fn lemma_constrained(sys: System, lc: Lc)
    requires
        good(sys),
        lc_in(lc, sys.c.n_mul, sys.c.n_committed),
        sys.w matches Some(w) ==> cong(lc_eval(lc, w), 0, fp_order()),
    ensures
        good(constrained(sys, lc)),
        extends(sys, constrained(sys, lc)),
{
    let s2 = constrained(sys, lc);
    lemma_extends_self(sys);
    assert forall|q: int| 0 <= q < s2.c.constraints.len() implies lc_in(
        #[trigger] s2.c.constraints[q],
        s2.c.n_mul,
        s2.c.n_committed,
    ) by {
        if q < sys.c.constraints.len() {
            assert(lc_in(sys.c.constraints[q], sys.c.n_mul, sys.c.n_committed));
        }
    }
    if sys.w is Some {
        let w = sys.w->Some_0;
        assert forall|q: int| 0 <= q < s2.c.constraints.len() implies cong(
            lc_eval(#[trigger] s2.c.constraints[q], w),
            0,
            fp_order(),
        ) by {
            if q < sys.c.constraints.len() {
                assert(cong(lc_eval(sys.c.constraints[q], w), 0, fp_order()));
            }
        }
    }
}

/// One more gate.
pub proof fn lemma_gated(sys: System, l: Option<int>, r: Option<int>)
    requires
        good(sys),
        sys.c.n_mul < usize::MAX,
    ensures
        good(gated(sys, l, r)),
        extends(sys, gated(sys, l, r)),
        sys.w is Some ==> ({
            let w2 = gated(sys, l, r).w->Some_0;
            let g = next_gate(sys.c);
            &&& wire(g.0, w2) == l->Some_0
            &&& wire(g.1, w2) == r->Some_0
            &&& wire(g.2, w2) == (l->Some_0 * r->Some_0) % fp_order()
        }),
{
    let s2 = gated(sys, l, r);
    let (n, m) = (sys.c.n_mul, sys.c.n_committed);
    assert forall|q: int| 0 <= q < s2.c.constraints.len() implies lc_in(
        #[trigger] s2.c.constraints[q],
        s2.c.n_mul,
        s2.c.n_committed,
    ) by {
        let lc = sys.c.constraints[q];
        assert(lc_in(sys.c.constraints[q], n, m));
        assert forall|k: int| 0 <= k < lc.len() implies var_in((#[trigger] lc[k]).0, n + 1, m) by {
            assert(var_in(lc[k].0, n, m));
        }
    }
    if sys.w is Some {
        let w = sys.w->Some_0;
        let w2 = s2.w->Some_0;
        assert(w2.a_l.take(w.a_l.len() as int) =~= w.a_l);
        assert(w2.a_r.take(w.a_r.len() as int) =~= w.a_r);
        assert(w2.a_o.take(w.a_o.len() as int) =~= w.a_o);
        let (x, y) = (l->Some_0, r->Some_0);
        lemma_fp_order();
        lemma_cong_mod(x * y, fp_order());
        assert forall|i: int| 0 <= i < w2.a_o.len() implies cong(
            w2.a_l[i] * w2.a_r[i],
            #[trigger] w2.a_o[i],
            fp_order(),
        ) by {
            if i < w.a_o.len() {
                assert(cong(w.a_l[i] * w.a_r[i], w.a_o[i], fp_order()));
            }
        }
        assert forall|q: int| 0 <= q < s2.c.constraints.len() implies cong(
            lc_eval(#[trigger] s2.c.constraints[q], w2),
            0,
            fp_order(),
        ) by {
            assert(lc_in(sys.c.constraints[q], n, m));
            assert(cong(lc_eval(sys.c.constraints[q], w), 0, fp_order()));
            lemma_lc_eval_with_inputs(sys.c.constraints[q], w, x, y, m);
        }
    }
}

/// A single wire with its value.
pub proof fn lemma_wire_right(sys: System, v: Variable, x: Option<int>)
    requires
        var_in(v, sys.c.n_mul, sys.c.n_committed),
        sys.w matches Some(w) ==> x is Some && cong(wire(v, w), x->Some_0, fp_order()),
    ensures
        right(sys, Scalar { lc: lc_var(v), w: x }),
{
    let lc = lc_var(v);
    if sys.w is Some {
        let w = sys.w->Some_0;
        assert(lc.drop_last() =~= Seq::<(Variable, int)>::empty());
        let e = wire(v, w);
        assert(1 * e == e);
        assert(lc_eval(lc.drop_last(), w) == 0);
    }
}

/// `lc − v = 0` where the wire has the value of the combination.
proof fn lemma_equals_wire(sys: System, s: Scalar, v: Variable)
    requires
        right(sys, s),
        var_in(v, sys.c.n_mul, sys.c.n_committed),
        sys.w matches Some(w) ==> cong(wire(v, w), s.w->Some_0, fp_order()),
    ensures
        lc_in(s.lc.push((v, minus_one())), sys.c.n_mul, sys.c.n_committed),
        sys.w matches Some(w) ==> cong(
            lc_eval(s.lc.push((v, minus_one())), w),
            0,
            fp_order(),
        ),
{
    let lc = s.lc.push((v, minus_one()));
    assert forall|k: int| 0 <= k < lc.len() implies var_in(
        (#[trigger] lc[k]).0,
        sys.c.n_mul,
        sys.c.n_committed,
    ) by {
        if k < s.lc.len() {
            assert(var_in(s.lc[k].0, sys.c.n_mul, sys.c.n_committed));
        }
    }
    if sys.w is Some {
        let w = sys.w->Some_0;
        let m = fp_order();
        lemma_fp_order();
        lemma_minus_one();
        lemma_lc_eval_push(s.lc, v, minus_one(), w);
        let (e, x, y) = (lc_eval(s.lc, w), wire(v, w), s.w->Some_0);
        lemma_cong_mod(-1, m);
        lemma_cong_mul(minus_one(), -1, x, y, m);
        lemma_cong_add(e, y, minus_one() * x, (-1) * y, m);
        assert(y + (-1) * y == 0) by (nonlinear_arith);
    }
}

/// A product of two right scalars.
pub proof fn lemma_mul_honest(sys: System, a: Scalar, b: Scalar)
    requires
        good(sys),
        sys.c.n_mul < usize::MAX,
        right(sys, a),
        right(sys, b),
    ensures
        good(mul_system(sys, a, b)),
        extends(sys, mul_system(sys, a, b)),
        right(mul_system(sys, a, b), mul_out(sys, a, b)),
{
    let g = next_gate(sys.c);
    let s1 = gated(sys, a.w, b.w);
    lemma_gated(sys, a.w, b.w);
    lemma_extends_right(sys, s1, a);
    lemma_extends_right(sys, s1, b);
    lemma_equals_wire(s1, a, g.0);
    let s2 = constrained(s1, a.lc.push((g.0, minus_one())));
    lemma_constrained(s1, a.lc.push((g.0, minus_one())));
    lemma_extends_right(s1, s2, b);
    lemma_equals_wire(s2, b, g.1);
    let s3 = constrained(s2, b.lc.push((g.1, minus_one())));
    lemma_constrained(s2, b.lc.push((g.1, minus_one())));
    lemma_extends_trans(sys, s1, s2);
    lemma_extends_trans(sys, s2, s3);
    lemma_wire_right(s3, g.2, mul_out(sys, a, b).w);
}

/// A quotient of two right scalars, where the denominator has an inverse.
pub proof fn lemma_div_honest(sys: System, num: Scalar, den: Scalar)
    requires
        good(sys),
        sys.c.n_mul < usize::MAX,
        right(sys, num),
        right(sys, den),
        sys.w is Some ==> cong(den.w->Some_0 * inv(den.w->Some_0), 1, fp_order()),
    ensures
        good(div_system(sys, num, den)),
        extends(sys, div_system(sys, num, den)),
        right(div_system(sys, num, den), div_out(sys, num, den)),
{
    let g = next_gate(sys.c);
    let q = quotient(num, den);
    let s1 = gated(sys, q, den.w);
    lemma_gated(sys, q, den.w);
    lemma_extends_right(sys, s1, num);
    lemma_extends_right(sys, s1, den);
    lemma_equals_wire(s1, den, g.1);
    let s2 = constrained(s1, den.lc.push((g.1, minus_one())));
    lemma_constrained(s1, den.lc.push((g.1, minus_one())));
    lemma_extends_right(s1, s2, num);
    if sys.w is Some {
        let m = fp_order();
        lemma_fp_order();
        let (n, d) = (num.w->Some_0, den.w->Some_0);
        let v = inv(d);
        // (n·v)·d ≡ n
        lemma_cong_mod(n * v, m);
        lemma_cong_mul((n * v) % m, n * v, d, d, m);
        assert((n * v) * d == n * (d * v)) by (nonlinear_arith);
        lemma_cong_mul(n, n, d * v, 1, m);
        assert(n * 1 == n);
        lemma_cong_mod(((n * v) % m) * d, m);
    }
    lemma_equals_wire(s2, num, g.2);
    let s3 = constrained(s2, num.lc.push((g.2, minus_one())));
    lemma_constrained(s2, num.lc.push((g.2, minus_one())));
    lemma_extends_trans(sys, s1, s2);
    lemma_extends_trans(sys, s2, s3);
    lemma_wire_right(s3, g.0, q);
}

// ─── linear operations ──────────────────────────────────────────────────────

pub proof fn lemma_const_right(sys: System, v: int)
    ensures
        right(sys, s_const(v)),
{
    if sys.w is Some {
        let w = sys.w->Some_0;
        lemma_lc_eval_add_term(Seq::empty(), Variable::One, v, w);
        assert(v * 1 == v);
        assert(lc_eval(Seq::<(Variable, int)>::empty(), w) == 0);
    }
}

pub proof fn lemma_add_right(sys: System, a: Scalar, b: Scalar)
    requires
        right(sys, a),
        right(sys, b),
    ensures
        right(sys, s_add(a, b)),
        right(sys, s_sub(a, b)),
{
    let (n, m) = (sys.c.n_mul, sys.c.n_committed);
    let l1 = a.lc + b.lc;
    assert forall|k: int| 0 <= k < l1.len() implies var_in((#[trigger] l1[k]).0, n, m) by {
        if k < a.lc.len() {
            assert(var_in(a.lc[k].0, n, m));
        } else {
            assert(var_in(b.lc[k - a.lc.len()].0, n, m));
        }
    }
    let l2 = a.lc + lc_neg(b.lc);
    assert forall|k: int| 0 <= k < l2.len() implies var_in((#[trigger] l2[k]).0, n, m) by {
        if k < a.lc.len() {
            assert(var_in(a.lc[k].0, n, m));
        } else {
            assert(var_in(b.lc[k - a.lc.len()].0, n, m));
        }
    }
    if sys.w is Some {
        let w = sys.w->Some_0;
        let p = fp_order();
        lemma_fp_order();
        let (ea, eb) = (lc_eval(a.lc, w), lc_eval(b.lc, w));
        let (x, y) = (a.w->Some_0, b.w->Some_0);
        lemma_lc_eval_concat(a.lc, b.lc, w);
        lemma_cong_add(ea, x, eb, y, p);
        lemma_cong_mod(x + y, p);
        lemma_lc_eval_concat(a.lc, lc_neg(b.lc), w);
        lemma_lc_eval_neg(b.lc, w);
        lemma_cong_sub(0, 0, eb, y, p);
        lemma_cong_add(ea, x, lc_eval(lc_neg(b.lc), w), -y, p);
        lemma_cong_mod(x - y, p);
    }
}

pub proof fn lemma_scale_right(sys: System, a: Scalar, c: int)
    requires
        right(sys, a),
    ensures
        right(sys, s_scale(a, c)),
        right(sys, s_shift(a, c)),
{
    let (n, m) = (sys.c.n_mul, sys.c.n_committed);
    let l3 = lc_mul(a.lc, c);
    assert forall|k: int| 0 <= k < l3.len() implies var_in((#[trigger] l3[k]).0, n, m) by {
        assert(var_in(a.lc[k].0, n, m));
    }
    let l4 = lc_add_term(a.lc, Variable::One, c);
    assert forall|k: int| 0 <= k < l4.len() implies var_in((#[trigger] l4[k]).0, n, m) by {
        if k < a.lc.len() {
            assert(var_in(a.lc[k].0, n, m));
        }
    }
    if sys.w is Some {
        let w = sys.w->Some_0;
        let p = fp_order();
        lemma_fp_order();
        let (e, x) = (lc_eval(a.lc, w), a.w->Some_0);
        lemma_lc_eval_mul(a.lc, c, w);
        lemma_cong_mul(e, x, c, c, p);
        lemma_cong_mod(x * c, p);
        lemma_lc_eval_add_term(a.lc, Variable::One, c, w);
        assert(c * 1 == c);
        lemma_cong_add(e, x, c, c, p);
        lemma_cong_mod(x + c, p);
    }
}

// ─── bits ───────────────────────────────────────────────────────────────────

/// A gate with the inputs `b` and `1 − b`.
pub proof fn lemma_bit_honest(sys: System, b: Option<bool>)
    requires
        good(sys),
        sys.c.n_mul < usize::MAX,
        sys.w is Some ==> b is Some,
    ensures
        good(bit_system(sys, b)),
        extends(sys, bit_system(sys, b)),
        right(bit_system(sys, b), bit_out(sys, b)),
{
    let m = fp_order();
    lemma_fp_order();
    lemma_minus_one();
    let g = next_gate(sys.c);
    let (l, r) = match b {
        Some(v) => (Some(bit_value(v)), Some(1 - bit_value(v))),
        None => (None, None),
    };
    let s1 = gated(sys, l, r);
    lemma_gated(sys, l, r);
    let lc = seq![(g.0, 1int), (g.1, 1int), (Variable::One, minus_one())];
    if sys.w is Some {
        let w = s1.w->Some_0;
        let (x, y) = (wire(g.0, w), wire(g.1, w));
        let e0 = Seq::<(Variable, int)>::empty();
        lemma_lc_eval_push(e0, g.0, 1, w);
        lemma_lc_eval_push(e0.push((g.0, 1)), g.1, 1, w);
        lemma_lc_eval_push(e0.push((g.0, 1)).push((g.1, 1)), Variable::One, minus_one(), w);
        assert(lc =~= e0.push((g.0, 1)).push((g.1, 1)).push((Variable::One, minus_one())));
        assert(lc_eval(e0, w) == 0);
        assert(1 * x == x && 1 * y == y);
        let p1 = minus_one();
        assert(p1 * 1 == p1);
        assert(lc_eval(lc, w) == m);
        vstd::arithmetic::div_mod::lemma_mod_self_0(m);
        lemma_mod_reduced(0, m);
        assert(x * y == 0) by {
            assert(0 * 1 == 0 && 1 * 0 == 0);
        }
    }
    lemma_constrained(s1, lc);
    let s2 = constrained(s1, lc);
    let v0 = Scalar { lc: lc_var(g.2), w: Some(0) };
    if sys.w is Some {
        lemma_mod_reduced(0, m);
    }
    lemma_wire_right(s2, g.2, Some(0));
    lemma_constrained(s2, lc_var(g.2));
    let s3 = constrained(s2, lc_var(g.2));
    lemma_extends_trans(sys, s1, s2);
    lemma_extends_trans(sys, s2, s3);
    lemma_wire_right(s3, g.0, bit_out(sys, b).w);
}

/// A gate for every bit.
pub proof fn lemma_bits_honest(sys: System, w: Seq<Option<bool>>)
    requires
        good(sys),
        sys.c.n_mul + w.len() <= usize::MAX,
        sys.w is Some ==> forall|i: int| 0 <= i < w.len() ==> #[trigger] w[i] is Some,
    ensures
        good(bits_system(sys, w)),
        extends(sys, bits_system(sys, w)),
        forall|i: int|
            0 <= i < w.len() ==> right(bits_system(sys, w), #[trigger] bits_out(sys, w)[i]),
    decreases w.len(),
{
    let s = bits_system(sys, w);
    if w.len() == 0 {
        if sys.w is Some {
            assert(values_fit(sys.c, sys.w->Some_0));
        }
        lemma_extends_self(sys);
    } else {
        let rest = w.drop_last();
        let s1 = bits_system(sys, rest);
        assert forall|i: int| 0 <= i < rest.len() && sys.w is Some implies #[trigger] rest[i] is Some by {
            assert(w[i] is Some);
        }
        lemma_bits_honest(sys, rest);
        lemma_bits_system(sys, rest);
        assert(sys.w is Some ==> w[w.len() - 1] is Some);
        lemma_bit_honest(s1, w.last());
        lemma_extends_trans(sys, s1, s);
        assert forall|i: int| 0 <= i < w.len() implies right(
            s,
            #[trigger] bits_out(sys, w)[i],
        ) by {
            if i < rest.len() {
                assert(rest.take(i) =~= w.take(i));
                assert(bits_out(sys, rest)[i] == bits_out(sys, w)[i]);
                assert(right(s1, bits_out(sys, rest)[i]));
                lemma_extends_right(s1, s, bits_out(sys, w)[i]);
            } else {
                assert(w.take(i) =~= rest);
            }
        }
    }
}

/// `∑_{i<n} 2^i · (bit i of v)`.
pub open spec fn bits_sum(v: int, n: nat) -> int
    decreases n,
{
    if n == 0 {
        0
    } else {
        bits_sum(v, (n - 1) as nat) + pow2((n - 1) as nat) * bit_value(bit(v, (n - 1) as nat))
    }
}

/// The bits of a number give the number back.
pub proof fn lemma_bits_sum(v: int, n: nat)
    requires
        0 <= v,
    ensures
        bits_sum(v, n) == v % (pow2(n) as int),
        v < pow2(n) ==> bits_sum(v, n) == v,
    decreases n,
{
    vstd::arithmetic::power2::lemma_pow2_pos(n);
    if n == 0 {
        vstd::arithmetic::power2::lemma_pow2(0);
        vstd::arithmetic::power::lemma_pow0(2);
    } else {
        let k = (n - 1) as nat;
        lemma_bits_sum(v, k);
        vstd::arithmetic::power2::lemma_pow2_unfold(n);
        vstd::arithmetic::power2::lemma_pow2_pos(k);
        let p = pow2(k) as int;
        let (q, r) = (v / p, v % p);
        vstd::arithmetic::div_mod::lemma_fundamental_div_mod(v, p);
        let (h, b) = (q / 2, q % 2);
        assert(q == 2 * h + b);
        assert(p * (2 * h + b) == (2 * p) * h + p * b) by (nonlinear_arith);
        assert(0 <= p * b <= p) by (nonlinear_arith)
            requires
                p > 0,
                0 <= b <= 1,
        ;
        let rem = p * b + r;
        assert(0 <= rem < 2 * p) by (nonlinear_arith)
            requires
                p > 0,
                0 <= b <= 1,
                0 <= r < p,
                rem == p * b + r,
        ;
        assert(v == h * (2 * p) + rem) by {
            assert((2 * p) * h == h * (2 * p)) by (nonlinear_arith);
        }
        vstd::arithmetic::div_mod::lemma_fundamental_div_mod_converse(v, 2 * p, h, rem);
        assert(bit_value(bit(v, k)) == b);
    }
    if v < pow2(n) {
        vstd::arithmetic::div_mod::lemma_small_mod(v as nat, pow2(n));
    }
}

/// The value of the combination of the bits of `v`.
proof fn lemma_bits_lc_eval(g: nat, n: nat, v: int, w: Values)
    requires
        g + n <= usize::MAX,
        forall|i: nat|
            i < n ==> cong(
                #[trigger] w.a_l[(g + i) as int],
                bit_value(bit(v, i)),
                fp_order(),
            ),
    ensures
        cong(lc_eval(bits_lc(g, n), w), bits_sum(v, n), fp_order()),
    decreases n,
{
    let m = fp_order();
    lemma_fp_order();
    if n > 0 {
        let k = (n - 1) as nat;
        lemma_bits_lc_eval(g, k, v, w);
        let p = pow2(k) as int;
        let var = Variable::MultiplierLeft((g + n - 1) as usize);
        lemma_lc_eval_add_term(bits_lc(g, k), var, p % m, w);
        let x = wire(var, w);
        assert(x == w.a_l[(g + k) as int]);
        let b = bit_value(bit(v, k));
        lemma_cong_mod(p, m);
        lemma_cong_mul(p % m, p, x, b, m);
        lemma_cong_add(lc_eval(bits_lc(g, k), w), bits_sum(v, k), (p % m) * x, p * b, m);
    }
}

/// The decomposition of a right scalar.
pub proof fn lemma_decompose_honest(sys: System, value: Scalar, n: nat)
    requires
        good(sys),
        sys.c.n_mul + n <= usize::MAX,
        right(sys, value),
        value.w matches Some(v) ==> 0 <= v,
        sys.w is Some ==> value.w->Some_0 < pow2(n),
    ensures
        good(decompose_system(sys, value, n)),
        extends(sys, decompose_system(sys, value, n)),
        forall|i: int|
            0 <= i < n ==> right(
                decompose_system(sys, value, n),
                #[trigger] decompose_out(sys, value, n)[i],
            ),
{
    let w = value_bits(value.w, n);
    let s1 = bits_system(sys, w);
    lemma_bits_honest(sys, w);
    lemma_bits_system(sys, w);
    lemma_extends_right(sys, s1, value);
    let lc = bits_lc(sys.c.n_mul, n) + lc_neg(value.lc);
    lemma_bits_lc_in(sys.c.n_mul, n, sys.c.n_committed);
    let a = Scalar { lc: bits_lc(sys.c.n_mul, n), w: value.w };
    if sys.w is Some {
        let v = value.w->Some_0;
        let u = s1.w->Some_0;
        let g = sys.c.n_mul;
        assert forall|i: nat| i < n implies cong(
            #[trigger] u.a_l[(g + i) as int],
            bit_value(bit(v, i)),
            fp_order(),
        ) by {
            let o = bits_out(sys, w)[i as int];
            assert(right(s1, bits_out(sys, w)[i as int]));
            lemma_bits_system(sys, w.take(i as int));
            let var = Variable::MultiplierLeft((g + i) as usize);
            assert(o.lc == lc_var(var));
            assert(o.lc.drop_last() =~= Seq::<(Variable, int)>::empty());
            assert(lc_eval(o.lc.drop_last(), u) == 0);
            let x = wire(var, u);
            assert(1 * x == x) by (nonlinear_arith);
        }
        lemma_bits_lc_eval(g, n, v, u);
        lemma_bits_sum(v, n);
    }
    lemma_add_right(s1, a, value);
    if sys.w is Some {
        lemma_fp_order();
        let v = value.w->Some_0;
        assert((v - v) % fp_order() == 0) by {
            lemma_mod_reduced(0, fp_order());
        }
        lemma_mod_reduced(0, fp_order());
    }
    lemma_constrained(s1, lc);
    let s2 = constrained(s1, lc);
    lemma_extends_trans(sys, s1, s2);
    assert forall|i: int| 0 <= i < n implies right(
        s2,
        #[trigger] decompose_out(sys, value, n)[i],
    ) by {
        assert(right(s1, bits_out(sys, w)[i]));
        lemma_extends_right(s1, s2, bits_out(sys, w)[i]);
    }
}

/// One bit further down.
pub proof fn lemma_shift_bit(v: int, i: nat)
    requires
        0 <= v,
    ensures
        v / (pow2(i) as int) == 2 * (v / (pow2(i + 1) as int)) + bit_value(bit(v, i)),
{
    vstd::arithmetic::power2::lemma_pow2_unfold(i + 1);
    vstd::arithmetic::power2::lemma_pow2_pos(i);
    let p = pow2(i) as int;
    vstd::arithmetic::div_mod::lemma_div_denominator(v, p, 2);
    assert(p * 2 == pow2(i + 1));
    let q = v / p;
    assert(q == 2 * (q / 2) + q % 2);
}

/// The comparison of the bits of a reduced number with those of `p − 1`: at every
/// step the number so far is at most that of `p − 1`, and the flag says whether it
/// is equal.
pub proof fn lemma_chain_honest(sys: System, bits: Seq<Scalar>, v: int, i: nat)
    requires
        good(sys),
        i <= bits.len(),
        sys.c.n_mul + (bits.len() - i) <= usize::MAX,
        forall|k: int| 0 <= k < bits.len() ==> right(sys, #[trigger] bits[k]),
        sys.w is Some ==> {
            &&& forall|k: int|
                0 <= k < bits.len() ==> (#[trigger] bits[k]).w == Some(
                    bit_value(bit(v, k as nat)),
                )
            &&& 0 <= v < fp_order()
            &&& fp_order() <= pow2(bits.len())
        },
    ensures
        ({
            let (s, run) = compare_chain(sys, bits, i);
            &&& good(s)
            &&& extends(sys, s)
            &&& right(s, run)
            &&& sys.w is Some ==> {
                &&& run.w == Some(
                    bit_value(v / (pow2(i) as int) == minus_one() / (pow2(i) as int)),
                )
                &&& v / (pow2(i) as int) <= minus_one() / (pow2(i) as int)
            }
        }),
    decreases bits.len() - i,
{
    let m = fp_order();
    let c = minus_one();
    lemma_fp_order();
    lemma_minus_one();
    if i >= bits.len() {
        lemma_extends_self(sys);
        lemma_const_right(sys, 1);
        if sys.w is Some {
            vstd::arithmetic::power2::lemma_pow2_pos(i);
            vstd::arithmetic::div_mod::lemma_basic_div(v, pow2(i) as int);
            vstd::arithmetic::div_mod::lemma_basic_div(c, pow2(i) as int);
        }
    } else {
        let (s, run) = compare_chain(sys, bits, i + 1);
        lemma_chain_honest(sys, bits, v, i + 1);
        assert forall|k: int| 0 <= k < bits.len() implies fits(sys, #[trigger] bits[k]) by {
            assert(right(sys, bits[k]));
        }
        lemma_compare_chain(sys, bits, i + 1);
        let b = bits[i as int];
        assert(right(sys, bits[i as int]));
        lemma_extends_right(sys, s, b);
        lemma_mul_honest(s, run, b);
        let s1 = mul_system(s, run, b);
        let o = mul_out(s, run, b);
        lemma_extends_trans(sys, s, s1);
        if sys.w is Some {
            lemma_shift_bit(v, i);
            lemma_shift_bit(c, i);
            vstd::arithmetic::power2::lemma_pow2_pos(i);
            vstd::arithmetic::div_mod::lemma_div_is_ordered(v, c, pow2(i) as int);
            let (x, y) = (run.w->Some_0, b.w->Some_0);
            assert(x == 0 || x == 1);
            assert(y == 0 || y == 1);
            assert(0 * y == 0 && 1 * y == y);
            lemma_mod_reduced(0, m);
            lemma_mod_reduced(1, m);
            assert(o.w == Some((x * y) % m));
        }
        if !bit(c, i) {
            if sys.w is Some {
                // run = 1 and b = 1 would make the number larger
                assert(o.w == Some(0int));
                lemma_mod_reduced(0, m);
            }
            lemma_constrained(s1, o.lc);
            let s2 = constrained(s1, o.lc);
            lemma_extends_trans(sys, s1, s2);
            lemma_extends_trans(s, s1, s2);
            lemma_extends_right(s, s2, run);
        }
    }
}

/// The canonical decomposition of a right scalar.
pub proof fn lemma_canonical_honest(sys: System, value: Scalar, n: nat)
    requires
        good(sys),
        sys.c.n_mul + 2 * n <= usize::MAX,
        right(sys, value),
        value.w matches Some(v) ==> 0 <= v < fp_order(),
        sys.w is Some ==> value.w->Some_0 < pow2(n),
    ensures
        good(canonical_system(sys, value, n)),
        extends(sys, canonical_system(sys, value, n)),
        forall|i: int|
            0 <= i < n ==> right(
                canonical_system(sys, value, n),
                #[trigger] decompose_out(sys, value, n)[i],
            ),
{
    reveal(canonical_system);
    lemma_decompose_honest(sys, value, n);
    let s1 = decompose_system(sys, value, n);
    let bits = decompose_out(sys, value, n);
    lemma_bits_system(sys, value_bits(value.w, n));
    if n >= 255 {
        let v = value.w->Some_0;
        lemma_order_bits(n);
        lemma_chain_honest(s1, bits, v, 0);
        let s2 = compare_chain(s1, bits, 0).0;
        lemma_extends_trans(sys, s1, s2);
        assert forall|i: int| 0 <= i < n implies right(s2, #[trigger] bits[i]) by {
            assert(right(s1, bits[i]));
            lemma_extends_right(s1, s2, bits[i]);
        }
    }
}

/// `p` has 255 bits.
pub proof fn lemma_order_bits(n: nat)
    requires
        n >= 255,
    ensures
        fp_order() <= pow2(n),
    decreases n,
{
    if n == 255 {
        reveal(fp_order);
        vstd::arithmetic::power2::lemma2_to64();
        vstd::arithmetic::power2::lemma_pow2_unfold(64);
        let w: int = 0x1_0000_0000_0000_0000;
        assert(pow2(64) == w && pow2(63) == 0x8000_0000_0000_0000);
        vstd::arithmetic::power2::lemma_pow2_adds(64, 64);
        assert(pow2(128) == w * w);
        vstd::arithmetic::power2::lemma_pow2_adds(128, 64);
        assert(pow2(192) == (w * w) * w);
        vstd::arithmetic::power2::lemma_pow2_adds(192, 63);
        assert(pow2(255) == ((w * w) * w) * 0x8000_0000_0000_0000);
    } else {
        lemma_order_bits((n - 1) as nat);
        vstd::arithmetic::power2::lemma_pow2_unfold(n);
    }
}

// ─── points ─────────────────────────────────────────────────────────────────

/// Both coordinates are right.
pub open spec fn point_right(sys: System, p: Point) -> bool {
    right(sys, p.x) && right(sys, p.y)
}

pub proof fn lemma_extends_point(sys: System, sys2: System, p: Point)
    requires
        extends(sys, sys2),
        point_right(sys, p),
        sys.c.n_mul <= usize::MAX,
    ensures
        point_right(sys2, p),
{
    lemma_extends_right(sys, sys2, p.x);
    lemma_extends_right(sys, sys2, p.y);
}

proof fn lemma_choose4_right(sys: System, b0: Scalar, b1: Scalar, b01: Scalar, t: Seq<int>)
    requires
        right(sys, b0),
        right(sys, b1),
        right(sys, b01),
    ensures
        right(sys, choose4(b0, b1, b01, t)),
{
    let p = fp_order();
    let (c1, c2, c3) = (
        (t[1] - t[0]) % p,
        (t[2] - t[0]) % p,
        (t[3] - t[2] - t[1] + t[0]) % p,
    );
    lemma_scale_right(sys, b0, c1);
    lemma_scale_right(sys, b1, c2);
    lemma_scale_right(sys, b01, c3);
    let e = s_add(s_scale(b0, c1), s_scale(b1, c2));
    lemma_add_right(sys, s_scale(b0, c1), s_scale(b1, c2));
    lemma_add_right(sys, e, s_scale(b01, c3));
    lemma_scale_right(sys, s_add(e, s_scale(b01, c3)), t[0]);
}

/// The entry of a table.
pub proof fn lemma_window_honest(
    sys: System,
    b0: Scalar,
    b1: Scalar,
    b2: Scalar,
    t: Seq<GinPoint>,
)
    requires
        good(sys),
        sys.c.n_mul + 3 <= usize::MAX,
        right(sys, b0),
        right(sys, b1),
        right(sys, b2),
    ensures
        good(window_system(sys, b0, b1, b2, t)),
        extends(sys, window_system(sys, b0, b1, b2, t)),
        point_right(window_system(sys, b0, b1, b2, t), window_out(sys, b0, b1, b2, t)),
{
    let s1 = mul_system(sys, b0, b1);
    let b01 = mul_out(sys, b0, b1);
    lemma_mul_honest(sys, b0, b1);
    lemma_extends_right(sys, s1, b0);
    lemma_extends_right(sys, s1, b1);
    lemma_extends_right(sys, s1, b2);
    let (tx, ty) = (xs(t), ys(t));
    lemma_choose4_right(s1, b0, b1, b01, seq![tx[0], tx[1], tx[2], tx[3]]);
    lemma_choose4_right(s1, b0, b1, b01, seq![tx[4], tx[5], tx[6], tx[7]]);
    lemma_choose4_right(s1, b0, b1, b01, seq![ty[0], ty[1], ty[2], ty[3]]);
    lemma_choose4_right(s1, b0, b1, b01, seq![ty[4], ty[5], ty[6], ty[7]]);
    let (xl, xh) = halves(sys, b0, b1, tx);
    let (yl, yh) = halves(sys, b0, b1, ty);
    lemma_add_right(s1, xh, xl);
    lemma_mul_honest(s1, b2, s_sub(xh, xl));
    let s2 = mul_system(s1, b2, s_sub(xh, xl));
    let px = mul_out(s1, b2, s_sub(xh, xl));
    lemma_extends_right(s1, s2, xl);
    lemma_add_right(s2, xl, px);
    lemma_extends_right(s1, s2, b2);
    lemma_extends_right(s1, s2, yl);
    lemma_extends_right(s1, s2, yh);
    lemma_add_right(s2, yh, yl);
    lemma_mul_honest(s2, b2, s_sub(yh, yl));
    let s3 = mul_system(s2, b2, s_sub(yh, yl));
    let py = mul_out(s2, b2, s_sub(yh, yl));
    lemma_extends_right(s2, s3, yl);
    lemma_add_right(s3, yl, py);
    lemma_extends_right(s2, s3, s_add(xl, px));
    lemma_extends_trans(sys, s1, s2);
    lemma_extends_trans(sys, s2, s3);
}

/// The numerators and denominators of a sum with a constant.
pub proof fn lemma_const_fractions_right(sys: System, p: Point, q: GinPoint)
    requires
        good(sys),
        sys.c.n_mul < usize::MAX,
        point_right(sys, p),
    ensures
        ({
            let s1 = mul_system(sys, p.x, p.y);
            let (nx, dx, ny, dy) = const_fractions(sys, p, q);
            &&& good(s1)
            &&& extends(sys, s1)
            &&& right(s1, nx)
            &&& right(s1, dx)
            &&& right(s1, ny)
            &&& right(s1, dy)
        }),
{
    let s1 = mul_system(sys, p.x, p.y);
    let u = mul_out(sys, p.x, p.y);
    lemma_mul_honest(sys, p.x, p.y);
    lemma_extends_point(sys, s1, p);
    let k = (ed_d() * (q.x * q.y)) % fp_order();
    lemma_scale_right(s1, u, k);
    let e = s_scale(u, k);
    lemma_scale_right(s1, e, 1);
    lemma_scale_right(s1, e, minus_one());
    lemma_scale_right(s1, s_scale(e, minus_one()), 1);
    lemma_scale_right(s1, p.x, q.y);
    lemma_scale_right(s1, p.y, q.x);
    lemma_add_right(s1, s_scale(p.x, q.y), s_scale(p.y, q.x));
    let ac = (ed_a() * q.x) % fp_order();
    lemma_scale_right(s1, p.y, q.y);
    lemma_scale_right(s1, p.x, ac);
    lemma_add_right(s1, s_scale(p.y, q.y), s_scale(p.x, ac));
}

/// The numerators and denominators of a sum of two variable points.
pub proof fn lemma_var_fractions_right(sys: System, p: Point, q: Point)
    requires
        good(sys),
        sys.c.n_mul + 5 <= usize::MAX,
        point_right(sys, p),
        point_right(sys, q),
    ensures
        ({
            let s5 = var_systems(sys, p, q).4;
            let (nx, dx, ny, dy) = var_fractions(sys, p, q);
            &&& good(s5)
            &&& extends(sys, s5)
            &&& right(s5, nx)
            &&& right(s5, dx)
            &&& right(s5, ny)
            &&& right(s5, dy)
        }),
{
    let (s1, s2, s3, s4, s5) = var_systems(sys, p, q);
    let x1x2 = mul_out(sys, p.x, q.x);
    let y1y2 = mul_out(s1, p.y, q.y);
    let x1y2 = mul_out(s2, p.x, q.y);
    let y1x2 = mul_out(s3, p.y, q.x);
    let t = mul_out(s4, x1x2, y1y2);
    lemma_mul_honest(sys, p.x, q.x);
    lemma_extends_point(sys, s1, p);
    lemma_extends_point(sys, s1, q);
    lemma_mul_honest(s1, p.y, q.y);
    lemma_extends_point(s1, s2, p);
    lemma_extends_point(s1, s2, q);
    lemma_mul_honest(s2, p.x, q.y);
    lemma_extends_point(s2, s3, p);
    lemma_extends_point(s2, s3, q);
    lemma_mul_honest(s3, p.y, q.x);
    lemma_extends_trans(s1, s2, s3);
    lemma_extends_trans(s1, s3, s4);
    lemma_extends_trans(s2, s3, s4);
    lemma_extends_right(s1, s4, x1x2);
    lemma_extends_right(s2, s4, y1y2);
    lemma_mul_honest(s4, x1x2, y1y2);
    lemma_extends_trans(s1, s4, s5);
    lemma_extends_trans(s2, s4, s5);
    lemma_extends_trans(s3, s4, s5);
    lemma_extends_trans(sys, s1, s5);
    lemma_extends_right(s1, s5, x1x2);
    lemma_extends_right(s2, s5, y1y2);
    lemma_extends_right(s3, s5, x1y2);
    lemma_extends_right(s4, s5, y1x2);
    lemma_scale_right(s5, t, ed_d());
    let dt = s_scale(t, ed_d());
    lemma_scale_right(s5, dt, 1);
    lemma_scale_right(s5, dt, minus_one());
    lemma_scale_right(s5, s_scale(dt, minus_one()), 1);
    lemma_add_right(s5, x1y2, y1x2);
    lemma_scale_right(s5, x1x2, ed_a());
    lemma_add_right(s5, y1y2, s_scale(x1x2, ed_a()));
}

/// Constraining a point to be the one that it is.
pub proof fn lemma_eq_point_honest(sys: System, p: Point, q: GinPoint)
    requires
        good(sys),
        point_right(sys, p),
        sys.w is Some ==> p.x.w == Some(q.x) && p.y.w == Some(q.y),
    ensures
        good(eq_point_system(sys, p, q)),
        extends(sys, eq_point_system(sys, p, q)),
{
    let m = fp_order();
    lemma_fp_order();
    let (cx, cy) = ((-q.x) % m, (-q.y) % m);
    lemma_scale_right(sys, p.x, cx);
    lemma_scale_right(sys, p.y, cy);
    if sys.w is Some {
        lemma_neg_sum(q.x);
        lemma_neg_sum(q.y);
    }
    let s1 = constrained(sys, lc_add_term(p.x.lc, Variable::One, cx));
    lemma_constrained(sys, lc_add_term(p.x.lc, Variable::One, cx));
    let s2 = constrained(s1, lc_add_term(p.y.lc, Variable::One, cy));
    lemma_constrained(s1, lc_add_term(p.y.lc, Variable::One, cy));
    lemma_extends_trans(sys, s1, s2);
}

/// Constraining a point of the curve to be one.
pub proof fn lemma_on_curve_honest(sys: System, p: Point)
    requires
        good(sys),
        sys.c.n_mul + 3 <= usize::MAX,
        point_right(sys, p),
        sys.w is Some ==> gin_on_curve(GinPoint { x: p.x.w->Some_0, y: p.y.w->Some_0 }),
    ensures
        good(on_curve_system(sys, p)),
        extends(sys, on_curve_system(sys, p)),
{
    let m = fp_order();
    lemma_fp_order();
    let s1 = mul_system(sys, p.x, p.x);
    let s2 = mul_system(s1, p.y, p.y);
    let (xx, yy) = (mul_out(sys, p.x, p.x), mul_out(s1, p.y, p.y));
    let s3 = mul_system(s2, xx, yy);
    let xxyy = mul_out(s2, xx, yy);
    lemma_mul_honest(sys, p.x, p.x);
    lemma_extends_right(sys, s1, p.y);
    lemma_mul_honest(s1, p.y, p.y);
    lemma_extends_right(s1, s2, xx);
    lemma_mul_honest(s2, xx, yy);
    lemma_extends_right(s2, s3, xx);
    lemma_extends_right(s2, s3, yy);
    lemma_extends_trans(sys, s1, s2);
    lemma_extends_trans(sys, s2, s3);
    let (ax, dxy) = (s_scale(xx, ed_a()), s_scale(xxyy, ed_d()));
    lemma_scale_right(s3, xx, ed_a());
    lemma_scale_right(s3, xxyy, ed_d());
    lemma_add_right(s3, ax, yy);
    lemma_add_right(s3, s_add(ax, yy), dxy);
    let diff = s_sub(s_add(ax, yy), dxy);
    lemma_scale_right(s3, diff, minus_one());
    let zero = s_shift(diff, minus_one());
    if sys.w is Some {
        let (x, y) = (p.x.w->Some_0, p.y.w->Some_0);
        let (u, v) = (xx.w->Some_0, yy.w->Some_0);
        lemma_cong_mod(x * x, m);
        lemma_cong_mod(y * y, m);
        assert(cong(u, x * x, m) && cong(v, y * y, m));
        lemma_cong_mul(u, x * x, v, y * y, m);
        lemma_cong_mod(u * v, m);
        let w = xxyy.w->Some_0;
        assert(cong(w, (x * x) * (y * y), m));
        let (a, d) = (ed_a(), ed_d());
        // a·x² + y²
        lemma_cong_mul(u, x * x, a, a, m);
        lemma_cong_mod(u * a, m);
        lemma_cong_add((u * a) % m, (x * x) * a, v, y * y, m);
        lemma_cong_mod((u * a) % m + v, m);
        // d·x²·y²
        lemma_cong_mul(w, (x * x) * (y * y), d, d, m);
        lemma_cong_mod(w * d, m);
        let (l, r) = (((u * a) % m + v) % m, (w * d) % m);
        let (xx2, k) = (x * x, (x * x) * (y * y));
        assert(xx2 * a == a * xx2 && k * d == d * k) by (nonlinear_arith);
        lemma_cong_sub(l, 1 + d * k, r, d * k, m);
        lemma_cong_mod(l - r, m);
        lemma_minus_one();
        lemma_cong_mod(-1, m);
        lemma_cong_add((l - r) % m, 1, minus_one(), -1, m);
        lemma_cong_mod((l - r) % m + minus_one(), m);
        assert(zero.w == Some(((l - r) % m + minus_one()) % m));
    }
    lemma_constrained(s3, zero.lc);
    assert(on_curve_system(sys, p) == constrained(s3, zero.lc));
    lemma_extends_trans(sys, s3, constrained(s3, zero.lc));
}

proof fn lemma_neg_sum(x: int)
    ensures
        cong((x + (-x) % fp_order()) % fp_order(), 0, fp_order()),
{
    let m = fp_order();
    lemma_fp_order();
    lemma_cong_mod(-x, m);
    lemma_cong_add(x, x, (-x) % m, -x, m);
    lemma_cong_mod(x + (-x) % m, m);
}

} // verus!
