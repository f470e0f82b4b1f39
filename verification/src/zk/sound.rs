//! What values that satisfy a circuit have in common, whoever has chosen them.
//!
//! The prover's own values play no part here: `w` is any assignment of the wires that
//! respects the gates and the constraints.
use crate::algebra::{
    cong, is_prime, lemma_cong_add, lemma_cong_diff, lemma_cong_mod, lemma_cong_mul,
    lemma_cong_small, lemma_cong_sub, lemma_mod_reduced,
};
use crate::curves::{
    ed_a, ed_d, ed_sum, gin_generates, gin_group_law, gin_in_group, gin_is_pow, gin_log, gin_neg,
    gin_pow, lemma_gin_log, lemma_gin_power, lemma_gin_power_sum, GinPoint,
};
use crate::evrf::{witness_made, EvrfWitness};
use crate::field::{bit, fp_order, fs_order, lemma_fp_order, lemma_fs_order};
use crate::zk::evrf_circuit::{
    batch_system, peer_system, peers_system, shared_system, sk_bits, Bases,
};
use crate::zk::gadgets::{
    add_const_out, add_const_system, add_var_out, add_var_system, bit_or_zero, bit_out, bit_system,
    bit_value, bits_lc, bits_out, bits_system, canonical_system, choose4, compare_chain,
    const_fractions, constrained, decompose_out, decompose_system, div_out, div_system,
    eq_point_system, gated, gin_exponent, halves, lemma_bits_system, mul_out, mul_system, multiples,
    multiplier_right, offset_hash, s_add, s_const, s_scale, s_shift, s_sub, scalar_mul_out,
    scalar_mul_system, select_out, step_out, step_system, table_right, tables_right, value_bits,
    var_fractions, var_systems, window_base, window_count, window_out, window_system, windows, xs,
    ys, Point, Scalar, System,
};
use crate::zk::honest::{lemma_order_bits, lemma_shift_bit};
use crate::zk::r1cs::{
    gates_hold, lc_add_term, lc_eval, lc_mul, lc_neg, lc_var, lemma_lc_eval_add_term,
    lemma_lc_eval_concat, lemma_lc_eval_mul, lemma_lc_eval_neg, lemma_lc_eval_push, lemma_minus_one,
    minus_one, next_gate, satisfied, wire, Circuit, Lc, Values, Variable,
};
use vstd::arithmetic::power2::{lemma_pow2_pos, lemma_pow2_unfold, pow2};
use vstd::prelude::*;

verus! {

/// The values respect all gates, among them those of `c`, and every constraint of `c`.
pub open spec fn obeys(c: Circuit, w: Values) -> bool {
    &&& c.n_mul <= w.a_o.len() <= usize::MAX
    &&& gates_hold(w)
    &&& forall|q: int|
        0 <= q < c.constraints.len() ==> cong(lc_eval(#[trigger] c.constraints[q], w), 0, fp_order())
}

/// The scalar has the value `x` on the wires `w`.
pub open spec fn takes(w: Values, s: Scalar, x: int) -> bool {
    cong(lc_eval(s.lc, w), x, fp_order())
}

// ─── constraints and gates ──────────────────────────────────────────────────

/// A constraint more.
proof fn lemma_obeys_constraint(sys: System, lc: Lc, w: Values)
    requires
        obeys(constrained(sys, lc).c, w),
    ensures
        obeys(sys.c, w),
        cong(lc_eval(lc, w), 0, fp_order()),
{
    let c2 = constrained(sys, lc).c;
    assert forall|q: int| 0 <= q < sys.c.constraints.len() implies cong(
        lc_eval(#[trigger] sys.c.constraints[q], w),
        0,
        fp_order(),
    ) by {
        assert(c2.constraints[q] == sys.c.constraints[q]);
    }
    assert(c2.constraints[sys.c.constraints.len() as int] == lc);
}

/// A gate more.
proof fn lemma_obeys_gate(sys: System, l: Option<int>, r: Option<int>, w: Values)
    requires
        obeys(gated(sys, l, r).c, w),
    ensures
        obeys(sys.c, w),
        ({
            let g = next_gate(sys.c);
            cong(wire(g.0, w) * wire(g.1, w), wire(g.2, w), fp_order())
        }),
{
    let i = sys.c.n_mul as int;
    assert(cong(w.a_l[i] * w.a_r[i], w.a_o[i], fp_order()));
    assert forall|q: int| 0 <= q < sys.c.constraints.len() implies cong(
        lc_eval(#[trigger] sys.c.constraints[q], w),
        0,
        fp_order(),
    ) by {
        assert(gated(sys, l, r).c.constraints[q] == sys.c.constraints[q]);
    }
}

/// A wire that a constraint sets equal to a combination.
proof fn lemma_equal_wire(lc: Lc, v: Variable, w: Values)
    requires
        cong(lc_eval(lc.push((v, minus_one())), w), 0, fp_order()),
    ensures
        cong(wire(v, w), lc_eval(lc, w), fp_order()),
{
    let m = fp_order();
    lemma_fp_order();
    lemma_minus_one();
    lemma_lc_eval_push(lc, v, minus_one(), w);
    let (e, x) = (lc_eval(lc, w), wire(v, w));
    lemma_cong_mod(-1, m);
    lemma_cong_mul(minus_one(), -1, x, x, m);
    lemma_cong_sub(e + minus_one() * x, 0, minus_one() * x, (-1) * x, m);
    assert(0 - (-1) * x == x) by (nonlinear_arith);
}

/// The value of a single wire.
proof fn lemma_wire_takes(w: Values, v: Variable)
    ensures
        lc_eval(lc_var(v), w) == wire(v, w),
{
    let e = Seq::<(Variable, int)>::empty();
    lemma_lc_eval_push(e, v, 1, w);
    assert(lc_var(v) =~= e.push((v, 1)));
    assert(lc_eval(e, w) == 0);
    let x = wire(v, w);
    assert(1 * x == x) by (nonlinear_arith);
}

/// A product.
proof fn lemma_mul_sound(sys: System, a: Scalar, b: Scalar, w: Values, x: int, y: int)
    requires
        obeys(mul_system(sys, a, b).c, w),
        takes(w, a, x),
        takes(w, b, y),
    ensures
        obeys(sys.c, w),
        takes(w, mul_out(sys, a, b), x * y),
{
    let g = next_gate(sys.c);
    let s1 = gated(sys, a.w, b.w);
    let s2 = constrained(s1, a.lc.push((g.0, minus_one())));
    lemma_obeys_constraint(s2, b.lc.push((g.1, minus_one())), w);
    lemma_obeys_constraint(s1, a.lc.push((g.0, minus_one())), w);
    lemma_obeys_gate(sys, a.w, b.w, w);
    lemma_equal_wire(a.lc, g.0, w);
    lemma_equal_wire(b.lc, g.1, w);
    lemma_fp_order();
    lemma_cong_mul(wire(g.0, w), x, wire(g.1, w), y, fp_order());
    lemma_wire_takes(w, g.2);
}

/// A quotient: times the denominator it is the numerator.
proof fn lemma_div_sound(sys: System, num: Scalar, den: Scalar, w: Values, n: int, d: int)
    requires
        obeys(div_system(sys, num, den).c, w),
        takes(w, num, n),
        takes(w, den, d),
    ensures
        obeys(sys.c, w),
        cong(lc_eval(div_out(sys, num, den).lc, w) * d, n, fp_order()),
{
    let g = next_gate(sys.c);
    let q = div_out(sys, num, den).w;
    let s1 = gated(sys, q, den.w);
    let s2 = constrained(s1, den.lc.push((g.1, minus_one())));
    lemma_obeys_constraint(s2, num.lc.push((g.2, minus_one())), w);
    lemma_obeys_constraint(s1, den.lc.push((g.1, minus_one())), w);
    lemma_obeys_gate(sys, q, den.w, w);
    lemma_equal_wire(den.lc, g.1, w);
    lemma_equal_wire(num.lc, g.2, w);
    lemma_fp_order();
    lemma_cong_mul(wire(g.0, w), wire(g.0, w), wire(g.1, w), d, fp_order());
    lemma_wire_takes(w, g.0);
}

// ─── linear operations ──────────────────────────────────────────────────────

proof fn lemma_const_takes(w: Values, v: int)
    ensures
        takes(w, s_const(v), v),
{
    lemma_lc_eval_add_term(Seq::empty(), Variable::One, v, w);
    assert(v * 1 == v);
    assert(lc_eval(Seq::<(Variable, int)>::empty(), w) == 0);
}

proof fn lemma_add_takes(w: Values, a: Scalar, b: Scalar, x: int, y: int)
    requires
        takes(w, a, x),
        takes(w, b, y),
    ensures
        takes(w, s_add(a, b), x + y),
        takes(w, s_sub(a, b), x - y),
{
    let p = fp_order();
    lemma_fp_order();
    let (ea, eb) = (lc_eval(a.lc, w), lc_eval(b.lc, w));
    lemma_lc_eval_concat(a.lc, b.lc, w);
    lemma_cong_add(ea, x, eb, y, p);
    lemma_lc_eval_concat(a.lc, lc_neg(b.lc), w);
    lemma_lc_eval_neg(b.lc, w);
    lemma_cong_sub(0, 0, eb, y, p);
    lemma_cong_add(ea, x, lc_eval(lc_neg(b.lc), w), -y, p);
}

proof fn lemma_scale_takes(w: Values, a: Scalar, x: int, c: int)
    requires
        takes(w, a, x),
    ensures
        takes(w, s_scale(a, c), x * c),
        takes(w, s_shift(a, c), x + c),
{
    let p = fp_order();
    lemma_fp_order();
    let e = lc_eval(a.lc, w);
    lemma_lc_eval_mul(a.lc, c, w);
    lemma_cong_mul(e, x, c, c, p);
    lemma_lc_eval_add_term(a.lc, Variable::One, c, w);
    assert(c * 1 == c);
    lemma_cong_add(e, x, c, c, p);
}

/// Scaling by a reduced factor is scaling by the factor.
proof fn lemma_scale_mod_takes(w: Values, a: Scalar, x: int, c: int)
    requires
        takes(w, a, x),
    ensures
        takes(w, s_scale(a, c % fp_order()), x * c),
{
    let p = fp_order();
    lemma_fp_order();
    lemma_scale_takes(w, a, x, c % p);
    lemma_cong_mod(c, p);
    lemma_cong_mul(x, x, c % p, c, p);
}

// ─── points ─────────────────────────────────────────────────────────────────

/// The point has the coordinates of `q` on the wires `w`.
pub open spec fn point_takes(w: Values, p: Point, q: GinPoint) -> bool {
    takes(w, p.x, q.x) && takes(w, p.y, q.y)
}

/// The addition law determines the sum: where the denominators do not vanish, what
/// satisfies the equations is the sum.
proof fn lemma_sum_unique(p: GinPoint, q: GinPoint, r: GinPoint, x: int, y: int)
    requires
        is_prime(fp_order()),
        ed_sum(p, q, r),
        ({
            let t = ed_d() * ((p.x * q.x) * (p.y * q.y));
            &&& cong(x * (1 + t), p.x * q.y + p.y * q.x, fp_order())
            &&& cong(y * (1 - t), p.y * q.y - ed_a() * (p.x * q.x), fp_order())
        }),
    ensures
        cong(x, r.x, fp_order()),
        cong(y, r.y, fp_order()),
{
    let m = fp_order();
    lemma_fp_order();
    let t = ed_d() * ((p.x * q.x) * (p.y * q.y));
    lemma_cancel(x, r.x, 1 + t);
    lemma_cancel(y, r.y, 1 - t);
}

/// A factor that is not zero can be cancelled.
proof fn lemma_cancel(a: int, b: int, c: int)
    requires
        is_prime(fp_order()),
        cong(a * c, b * c, fp_order()),
        c % fp_order() != 0,
    ensures
        cong(a, b, fp_order()),
{
    let m = fp_order();
    lemma_fp_order();
    lemma_cong_diff(a * c, b * c, m);
    assert(a * c - b * c == (a - b) * c) by (nonlinear_arith);
    assert(((a - b) * c) % m == 0);
    lemma_cong_diff(a, b, m);
}

/// [`crate::zk::gadgets::add_var`] adds.
proof fn lemma_add_var_sound(
    sys: System,
    a: Point,
    b: Point,
    w: Values,
    p: GinPoint,
    q: GinPoint,
    r: GinPoint,
)
    requires
        is_prime(fp_order()),
        obeys(add_var_system(sys, a, b).c, w),
        point_takes(w, a, p),
        point_takes(w, b, q),
        ed_sum(p, q, r),
    ensures
        obeys(sys.c, w),
        point_takes(w, add_var_out(sys, a, b), r),
{
    let m = fp_order();
    lemma_fp_order();
    let (s1, s2, s3, s4, s5) = var_systems(sys, a, b);
    let (nx, dx, ny, dy) = var_fractions(sys, a, b);
    let s6 = div_system(s5, nx, dx);
    let s7 = div_system(s6, ny, dy);
    let x1x2 = mul_out(sys, a.x, b.x);
    let y1y2 = mul_out(s1, a.y, b.y);
    let x1y2 = mul_out(s2, a.x, b.y);
    let y1x2 = mul_out(s3, a.y, b.x);
    let prod = mul_out(s4, x1x2, y1y2);
    let dt = s_scale(prod, ed_d());
    // the circuits before
    lemma_obeys_div(s6, ny, dy, w);
    lemma_obeys_div(s5, nx, dx, w);
    lemma_obeys_mul(s4, x1x2, y1y2, w);
    lemma_obeys_mul(s3, a.y, b.x, w);
    lemma_obeys_mul(s2, a.x, b.y, w);
    lemma_obeys_mul(s1, a.y, b.y, w);
    lemma_mul_sound(sys, a.x, b.x, w, p.x, q.x);
    lemma_mul_sound(s1, a.y, b.y, w, p.y, q.y);
    lemma_mul_sound(s2, a.x, b.y, w, p.x, q.y);
    lemma_mul_sound(s3, a.y, b.x, w, p.y, q.x);
    lemma_mul_sound(s4, x1x2, y1y2, w, p.x * q.x, p.y * q.y);
    let u = (p.x * q.x) * (p.y * q.y);
    lemma_scale_takes(w, prod, u, ed_d());
    let t = ed_d() * u;
    assert(u * ed_d() == t) by (nonlinear_arith)
        requires
            t == ed_d() * u,
    ;
    lemma_add_takes(w, x1y2, y1x2, p.x * q.y, p.y * q.x);
    lemma_scale_takes(w, dt, t, 1);
    lemma_scale_takes(w, x1x2, p.x * q.x, ed_a());
    let ax = (p.x * q.x) * ed_a();
    assert(ax == ed_a() * (p.x * q.x)) by (nonlinear_arith)
        requires
            ax == (p.x * q.x) * ed_a(),
    ;
    lemma_add_takes(w, y1y2, s_scale(x1x2, ed_a()), p.y * q.y, ax);
    lemma_scale_takes(w, dt, t, minus_one());
    lemma_negated(w, dt, t);
    lemma_scale_takes(w, s_scale(dt, minus_one()), -t, 1);
    lemma_div_sound(s5, nx, dx, w, p.x * q.y + p.y * q.x, t + 1);
    lemma_div_sound(s6, ny, dy, w, p.y * q.y - ax, -t + 1);
    let o = add_var_out(sys, a, b);
    lemma_sum_unique(p, q, r, lc_eval(o.x.lc, w), lc_eval(o.y.lc, w));
}

/// Scaling by `-1`.
proof fn lemma_negated(w: Values, a: Scalar, x: int)
    requires
        takes(w, a, x),
    ensures
        takes(w, s_scale(a, minus_one()), -x),
{
    let p = fp_order();
    lemma_fp_order();
    lemma_minus_one();
    lemma_scale_takes(w, a, x, minus_one());
    lemma_cong_mod(-1, p);
    lemma_cong_mul(x, x, minus_one(), -1, p);
    assert(x * (-1) == -x) by (nonlinear_arith);
}

/// The circuit before a product.
proof fn lemma_obeys_mul(sys: System, a: Scalar, b: Scalar, w: Values)
    requires
        obeys(mul_system(sys, a, b).c, w),
    ensures
        obeys(sys.c, w),
{
    lemma_mul_sound(sys, a, b, w, lc_eval(a.lc, w), lc_eval(b.lc, w));
}

/// The circuit before a quotient.
proof fn lemma_obeys_div(sys: System, num: Scalar, den: Scalar, w: Values)
    requires
        obeys(div_system(sys, num, den).c, w),
    ensures
        obeys(sys.c, w),
{
    lemma_div_sound(sys, num, den, w, lc_eval(num.lc, w), lc_eval(den.lc, w));
}

/// [`crate::zk::gadgets::add_const`] adds.
proof fn lemma_add_const_sound(
    sys: System,
    a: Point,
    w: Values,
    p: GinPoint,
    q: GinPoint,
    r: GinPoint,
)
    requires
        is_prime(fp_order()),
        obeys(add_const_system(sys, a, q).c, w),
        point_takes(w, a, p),
        ed_sum(p, q, r),
    ensures
        obeys(sys.c, w),
        point_takes(w, add_const_out(sys, a, q), r),
{
    let m = fp_order();
    lemma_fp_order();
    let s1 = mul_system(sys, a.x, a.y);
    let (nx, dx, ny, dy) = const_fractions(sys, a, q);
    let s2 = div_system(s1, nx, dx);
    lemma_obeys_div(s2, ny, dy, w);
    lemma_obeys_div(s1, nx, dx, w);
    lemma_mul_sound(sys, a.x, a.y, w, p.x, p.y);
    let u = mul_out(sys, a.x, a.y);
    let c = ed_d() * (q.x * q.y);
    let e = s_scale(u, c % m);
    lemma_scale_mod_takes(w, u, p.x * p.y, c);
    let t = ed_d() * ((p.x * q.x) * (p.y * q.y));
    let (d, x1, y1, x2, y2) = (ed_d(), p.x, p.y, q.x, q.y);
    assert((x1 * y1) * (d * (x2 * y2)) == d * ((x1 * x2) * (y1 * y2))) by (nonlinear_arith);
    assert(takes(w, e, t));
    lemma_scale_takes(w, a.x, x1, y2);
    lemma_scale_takes(w, a.y, y1, x2);
    lemma_add_takes(w, s_scale(a.x, y2), s_scale(a.y, x2), x1 * y2, y1 * x2);
    lemma_scale_takes(w, e, t, 1);
    lemma_scale_takes(w, a.y, y1, y2);
    let k = ed_a() * x2;
    lemma_scale_mod_takes(w, a.x, x1, k);
    let ax = x1 * k;
    assert(ax == ed_a() * (x1 * x2)) by (nonlinear_arith)
        requires
            ax == x1 * k,
            k == ed_a() * x2,
    ;
    lemma_add_takes(w, s_scale(a.y, y2), s_scale(a.x, k % m), y1 * y2, ax);
    lemma_negated(w, e, t);
    lemma_scale_takes(w, s_scale(e, minus_one()), -t, 1);
    lemma_div_sound(s1, nx, dx, w, x1 * y2 + y1 * x2, t + 1);
    lemma_div_sound(s2, ny, dy, w, y1 * y2 - ax, -t + 1);
    let o = add_const_out(sys, a, q);
    lemma_sum_unique(p, q, r, lc_eval(o.x.lc, w), lc_eval(o.y.lc, w));
}

// ─── bits ───────────────────────────────────────────────────────────────────

/// The scalar is zero or one.
pub open spec fn binary(w: Values, b: Scalar) -> bool {
    takes(w, b, 0) || takes(w, b, 1)
}

/// The bit on the wires.
pub open spec fn bit_on(w: Values, b: Scalar) -> int {
    if takes(w, b, 1) {
        1
    } else {
        0
    }
}

/// Every scalar is zero or one.
pub open spec fn all_binary(w: Values, bits: Seq<Scalar>) -> bool {
    forall|i: int| 0 <= i < bits.len() ==> binary(w, #[trigger] bits[i])
}

/// `∑_{j<n} 2^j · b_j`.
pub open spec fn number_on(w: Values, bits: Seq<Scalar>, n: nat) -> int
    decreases n,
{
    if n == 0 {
        0
    } else {
        number_on(w, bits, (n - 1) as nat) + pow2((n - 1) as nat) * bit_on(
            w,
            bit_or_zero(bits, (n - 1) as nat),
        )
    }
}

proof fn lemma_bit_on(w: Values, b: Scalar)
    requires
        binary(w, b),
    ensures
        takes(w, b, bit_on(w, b)),
        bit_on(w, b) == 0 || bit_on(w, b) == 1,
{
}

/// Bit `i`, or zero behind the end, is zero or one.
proof fn lemma_bit_or_zero(w: Values, bits: Seq<Scalar>, i: nat)
    requires
        all_binary(w, bits),
    ensures
        binary(w, bit_or_zero(bits, i)),
        takes(w, bit_or_zero(bits, i), bit_on(w, bit_or_zero(bits, i))),
        bit_on(w, bit_or_zero(bits, i)) == 0 || bit_on(w, bit_or_zero(bits, i)) == 1,
{
    if i < bits.len() {
        assert(binary(w, bits[i as int]));
    } else {
        lemma_const_takes(w, 0);
    }
    lemma_bit_on(w, bit_or_zero(bits, i));
}

/// A bit that is allocated is zero or one.
proof fn lemma_bit_sound(sys: System, b: Option<bool>, w: Values)
    requires
        is_prime(fp_order()),
        obeys(bit_system(sys, b).c, w),
    ensures
        obeys(sys.c, w),
        binary(w, bit_out(sys, b)),
{
    let m = fp_order();
    lemma_fp_order();
    lemma_minus_one();
    let g = next_gate(sys.c);
    let (l, r) = match b {
        Some(v) => (Some(bit_value(v)), Some(1 - bit_value(v))),
        None => (None, None),
    };
    let s1 = gated(sys, l, r);
    let lc = seq![(g.0, 1int), (g.1, 1int), (Variable::One, minus_one())];
    let s2 = constrained(s1, lc);
    lemma_obeys_constraint(s2, lc_var(g.2), w);
    lemma_obeys_constraint(s1, lc, w);
    lemma_obeys_gate(sys, l, r, w);
    lemma_wire_takes(w, g.2);
    lemma_wire_takes(w, g.0);
    let (x, y) = (wire(g.0, w), wire(g.1, w));
    let e0 = Seq::<(Variable, int)>::empty();
    lemma_lc_eval_push(e0, g.0, 1, w);
    lemma_lc_eval_push(e0.push((g.0, 1)), g.1, 1, w);
    lemma_lc_eval_push(e0.push((g.0, 1)).push((g.1, 1)), Variable::One, minus_one(), w);
    assert(lc =~= e0.push((g.0, 1)).push((g.1, 1)).push((Variable::One, minus_one())));
    assert(lc_eval(e0, w) == 0);
    assert(1 * x == x && 1 * y == y) by (nonlinear_arith);
    let p1 = minus_one();
    assert(p1 * 1 == p1);
    lemma_cong_mod(-1, m);
    // y = 1 − x
    lemma_cong_add(x, x, p1, -1, m);
    lemma_cong_sub(x + y + p1, 0, x + p1, x + (-1), m);
    assert(cong(y, 1 - x, m));
    lemma_cong_mul(x, x, y, 1 - x, m);
    assert(cong(x * (1 - x), 0, m));
    lemma_mod_reduced(0, m);
    assert((x * (1 - x)) % m == 0);
    if x % m == 0 {
    } else {
        assert((1 - x) % m == 0);
        lemma_cong_sub(1, 1, 1 - x, 0, m);
    }
}

/// Bits that are allocated are zero or one.
proof fn lemma_bits_sound(sys: System, b: Seq<Option<bool>>, w: Values)
    requires
        is_prime(fp_order()),
        obeys(bits_system(sys, b).c, w),
    ensures
        obeys(sys.c, w),
        all_binary(w, bits_out(sys, b)),
    decreases b.len(),
{
    if b.len() > 0 {
        let rest = b.drop_last();
        lemma_bit_sound(bits_system(sys, rest), b.last(), w);
        lemma_bits_sound(sys, rest, w);
        assert forall|i: int| 0 <= i < b.len() implies binary(
            w,
            #[trigger] bits_out(sys, b)[i],
        ) by {
            if i < rest.len() {
                assert(rest.take(i) =~= b.take(i));
                assert(bits_out(sys, rest)[i] == bits_out(sys, b)[i]);
            } else {
                assert(b.take(i) =~= rest);
            }
        }
    }
}

// ─── tables ─────────────────────────────────────────────────────────────────

/// The entry of a table of four that two bits choose.
proof fn lemma_choose4_sound(
    w: Values,
    b0: Scalar,
    b1: Scalar,
    b01: Scalar,
    t: Seq<int>,
    c0: int,
    c1: int,
)
    requires
        t.len() == 4,
        c0 == 0 || c0 == 1,
        c1 == 0 || c1 == 1,
        takes(w, b0, c0),
        takes(w, b1, c1),
        takes(w, b01, c0 * c1),
    ensures
        takes(w, choose4(b0, b1, b01, t), t[c0 + 2 * c1]),
{
    let p = fp_order();
    let (k0, k1, k2) = (t[1] - t[0], t[2] - t[0], t[3] - t[2] - t[1] + t[0]);
    lemma_scale_mod_takes(w, b0, c0, k0);
    lemma_scale_mod_takes(w, b1, c1, k1);
    lemma_scale_mod_takes(w, b01, c0 * c1, k2);
    let (a0, a1, a2) = (s_scale(b0, k0 % p), s_scale(b1, k1 % p), s_scale(b01, k2 % p));
    lemma_add_takes(w, a0, a1, c0 * k0, c1 * k1);
    lemma_add_takes(w, s_add(a0, a1), a2, c0 * k0 + c1 * k1, (c0 * c1) * k2);
    lemma_scale_takes(w, s_add(s_add(a0, a1), a2), c0 * k0 + c1 * k1 + (c0 * c1) * k2, t[0]);
    assert(0 * k0 == 0 && 1 * k0 == k0 && 0 * k1 == 0 && 1 * k1 == k1 && 0 * k2 == 0 && 1 * k2
        == k2) by (nonlinear_arith);
    assert(0 * c1 == 0 && 1 * c1 == c1) by (nonlinear_arith);
}

/// The entry of a table of eight points that three bits choose.
proof fn lemma_window_sound(
    sys: System,
    b0: Scalar,
    b1: Scalar,
    b2: Scalar,
    t: Seq<GinPoint>,
    w: Values,
    c0: int,
    c1: int,
    c2: int,
)
    requires
        t.len() == 8,
        obeys(window_system(sys, b0, b1, b2, t).c, w),
        c0 == 0 || c0 == 1,
        c1 == 0 || c1 == 1,
        c2 == 0 || c2 == 1,
        takes(w, b0, c0),
        takes(w, b1, c1),
        takes(w, b2, c2),
    ensures
        obeys(sys.c, w),
        point_takes(w, window_out(sys, b0, b1, b2, t), t[c0 + 2 * c1 + 4 * c2]),
{
    let s1 = mul_system(sys, b0, b1);
    let b01 = mul_out(sys, b0, b1);
    let (xl, xh) = halves(sys, b0, b1, xs(t));
    let s2 = mul_system(s1, b2, s_sub(xh, xl));
    let (yl, yh) = halves(sys, b0, b1, ys(t));
    lemma_obeys_mul(s2, b2, s_sub(yh, yl), w);
    lemma_obeys_mul(s1, b2, s_sub(xh, xl), w);
    lemma_mul_sound(sys, b0, b1, w, c0, c1);
    let j = c0 + 2 * c1;
    let (tx, ty) = (xs(t), ys(t));
    let (x0, x1) = (seq![tx[0], tx[1], tx[2], tx[3]], seq![tx[4], tx[5], tx[6], tx[7]]);
    let (y0, y1) = (seq![ty[0], ty[1], ty[2], ty[3]], seq![ty[4], ty[5], ty[6], ty[7]]);
    lemma_choose4_sound(w, b0, b1, b01, x0, c0, c1);
    lemma_choose4_sound(w, b0, b1, b01, x1, c0, c1);
    lemma_choose4_sound(w, b0, b1, b01, y0, c0, c1);
    lemma_choose4_sound(w, b0, b1, b01, y1, c0, c1);
    lemma_select_sound(s1, b2, xh, xl, w, c2, x1[j], x0[j]);
    lemma_select_sound(s2, b2, yh, yl, w, c2, y1[j], y0[j]);
    assert(x0[j] == t[j].x && x1[j] == t[j + 4].x && y0[j] == t[j].y && y1[j] == t[j + 4].y);
}

/// One of two values, chosen by a bit.
proof fn lemma_select_sound(
    sys: System,
    b: Scalar,
    a: Scalar,
    c: Scalar,
    w: Values,
    v: int,
    x: int,
    y: int,
)
    requires
        obeys(mul_system(sys, b, s_sub(a, c)).c, w),
        v == 0 || v == 1,
        takes(w, b, v),
        takes(w, a, x),
        takes(w, c, y),
    ensures
        takes(
            w,
            select_out(sys, b, a, c),
            if v == 1 {
                x
            } else {
                y
            },
        ),
{
    let d = s_sub(a, c);
    lemma_add_takes(w, a, c, x, y);
    lemma_mul_sound(sys, b, d, w, v, x - y);
    lemma_add_takes(w, c, mul_out(sys, b, d), y, v * (x - y));
    assert(0 * (x - y) == 0 && 1 * (x - y) == x - y) by (nonlinear_arith);
}

// ─── multiples of a constant point ──────────────────────────────────────────

/// Three more bits of a number.
proof fn lemma_three_bits(w: Values, bits: Seq<Scalar>, k: nat)
    ensures
        number_on(w, bits, 3 * (k + 1)) == number_on(w, bits, 3 * k) + pow2(3 * k) * (bit_on(
            w,
            bit_or_zero(bits, 3 * k),
        ) + 2 * bit_on(w, bit_or_zero(bits, 3 * k + 1)) + 4 * bit_on(
            w,
            bit_or_zero(bits, 3 * k + 2),
        )),
{
    let n = 3 * k;
    lemma_pow2_unfold(n + 1);
    lemma_pow2_unfold(n + 2);
    let p = pow2(n) as int;
    let (x, y, z) = (
        bit_on(w, bit_or_zero(bits, n)),
        bit_on(w, bit_or_zero(bits, n + 1)),
        bit_on(w, bit_or_zero(bits, n + 2)),
    );
    assert(number_on(w, bits, n + 1) == number_on(w, bits, n) + p * x);
    assert(number_on(w, bits, n + 2) == number_on(w, bits, n + 1) + (2 * p) * y);
    assert(number_on(w, bits, n + 3) == number_on(w, bits, n + 2) + (4 * p) * z);
    assert(p * (x + 2 * y + 4 * z) == p * x + (2 * p) * y + (4 * p) * z) by (nonlinear_arith);
}

/// A point of the subgroup is the power with its exponent.
proof fn lemma_power(p: GinPoint, e: int)
    requires
        gin_exponent(p, e),
    ensures
        p == gin_pow(e % fs_order()),
        gin_log(p) == e % fs_order(),
{
    let k = choose|k: int| gin_is_pow(p, k);
    lemma_gin_log(p, k);
    lemma_fs_order();
    lemma_cong_mod(e, fs_order());
    lemma_cong_small(gin_log(p), e % fs_order(), fs_order());
}

/// The accumulator after `i` windows.
proof fn lemma_windows_sound(
    sys: System,
    bits: Seq<Scalar>,
    base: GinPoint,
    offset: GinPoint,
    i: nat,
    w: Values,
)
    requires
        is_prime(fp_order()),
        gin_group_law(),
        tables_right(base, i),
        gin_in_group(offset),
        all_binary(w, bits),
        obeys(windows(sys, bits, base, offset, i).0.c, w),
    ensures
        obeys(sys.c, w),
        point_takes(
            w,
            windows(sys, bits, base, offset, i).1,
            gin_pow(
                (gin_log(offset) + number_on(w, bits, 3 * i) * gin_log(base)) % fs_order(),
            ),
        ),
    decreases i,
{
    let s = fs_order();
    lemma_fs_order();
    let (lo, lb) = (gin_log(offset), gin_log(base));
    if i == 0 {
        lemma_const_takes(w, offset.x);
        lemma_const_takes(w, offset.y);
        assert(number_on(w, bits, 0) * lb == 0) by (nonlinear_arith)
            requires
                number_on(w, bits, 0) == 0,
        ;
        lemma_power(offset, lo);
    } else {
        let k = (i - 1) as nat;
        let (s0, acc) = windows(sys, bits, base, offset, k);
        let (b0, b1, b2) = (
            bit_or_zero(bits, 3 * k),
            bit_or_zero(bits, 3 * k + 1),
            bit_or_zero(bits, 3 * k + 2),
        );
        let q = window_base(base, k);
        lemma_bit_or_zero(w, bits, 3 * k);
        lemma_bit_or_zero(w, bits, 3 * k + 1);
        lemma_bit_or_zero(w, bits, 3 * k + 2);
        lemma_obeys_step(s0, acc, b0, b1, b2, q, w);
        assert forall|j: nat| j < k implies #[trigger] table_right(base, j) by {
            assert(table_right(base, j));
        }
        lemma_windows_sound(sys, bits, base, offset, k, w);
        assert(table_right(base, k));
        let idx = bit_on(w, b0) + 2 * bit_on(w, b1) + 4 * bit_on(w, b2);
        let n = number_on(w, bits, 3 * k);
        let e1 = lo + n * lb;
        let p2 = pow2(3 * k) as int;
        let e2 = idx * (p2 * lb);
        assert(gin_exponent(multiples(q)[idx], e2));
        lemma_step_sound(s0, acc, b0, b1, b2, q, w, e1, e2);
        lemma_three_bits(w, bits, k);
        assert(3 * (k + 1) == 3 * i);
        assert((n + p2 * idx) * lb == n * lb + idx * (p2 * lb)) by (nonlinear_arith);
    }
}

/// One window.
proof fn lemma_step_sound(
    sys: System,
    acc: Point,
    b0: Scalar,
    b1: Scalar,
    b2: Scalar,
    q: GinPoint,
    w: Values,
    e1: int,
    e2: int,
)
    requires
        is_prime(fp_order()),
        gin_group_law(),
        binary(w, b0),
        binary(w, b1),
        binary(w, b2),
        gin_exponent(
            multiples(q)[bit_on(w, b0) + 2 * bit_on(w, b1) + 4 * bit_on(w, b2)],
            e2,
        ),
        obeys(step_system(sys, acc, b0, b1, b2, q).c, w),
        point_takes(w, acc, gin_pow(e1 % fs_order())),
    ensures
        point_takes(w, step_out(sys, acc, b0, b1, b2, q), gin_pow((e1 + e2) % fs_order())),
{
    let s = fs_order();
    lemma_fs_order();
    let t = multiples(q);
    let s1 = window_system(sys, b0, b1, b2, t);
    let sel = window_out(sys, b0, b1, b2, t);
    lemma_bit_on(w, b0);
    lemma_bit_on(w, b1);
    lemma_bit_on(w, b2);
    let (c0, c1, c2) = (bit_on(w, b0), bit_on(w, b1), bit_on(w, b2));
    let idx = c0 + 2 * c1 + 4 * c2;
    lemma_obeys_add_var(s1, acc, sel, w);
    lemma_window_sound(sys, b0, b1, b2, t, w, c0, c1, c2);
    lemma_power(t[idx], e2);
    lemma_cong_mod(e1, s);
    lemma_cong_mod(e2, s);
    lemma_cong_add(e1 % s, e1, e2 % s, e2, s);
    let r = gin_pow((e1 % s + e2 % s) % s);
    lemma_gin_power_sum(e1 % s, e2 % s);
    lemma_add_var_sound(s1, acc, sel, w, gin_pow(e1 % s), t[idx], r);
}

/// The circuit before a window.
proof fn lemma_obeys_step(
    sys: System,
    acc: Point,
    b0: Scalar,
    b1: Scalar,
    b2: Scalar,
    q: GinPoint,
    w: Values,
)
    requires
        obeys(step_system(sys, acc, b0, b1, b2, q).c, w),
    ensures
        obeys(sys.c, w),
{
    let t = multiples(q);
    let s1 = mul_system(sys, b0, b1);
    let (xl, xh) = halves(sys, b0, b1, xs(t));
    let s2 = mul_system(s1, b2, s_sub(xh, xl));
    let (yl, yh) = halves(sys, b0, b1, ys(t));
    let s3 = mul_system(s2, b2, s_sub(yh, yl));
    lemma_obeys_add_var(s3, acc, window_out(sys, b0, b1, b2, t), w);
    lemma_obeys_mul(s2, b2, s_sub(yh, yl), w);
    lemma_obeys_mul(s1, b2, s_sub(xh, xl), w);
    lemma_obeys_mul(sys, b0, b1, w);
}

/// The circuit before a sum.
proof fn lemma_obeys_add_var(sys: System, a: Point, b: Point, w: Values)
    requires
        obeys(add_var_system(sys, a, b).c, w),
    ensures
        obeys(sys.c, w),
{
    let (s1, s2, s3, s4, s5) = var_systems(sys, a, b);
    let (nx, dx, ny, dy) = var_fractions(sys, a, b);
    lemma_obeys_div(div_system(s5, nx, dx), ny, dy, w);
    lemma_obeys_div(s5, nx, dx, w);
    lemma_obeys_mul(s4, mul_out(sys, a.x, b.x), mul_out(s1, a.y, b.y), w);
    lemma_obeys_mul(s3, a.y, b.x, w);
    lemma_obeys_mul(s2, a.x, b.y, w);
    lemma_obeys_mul(s1, a.y, b.y, w);
    lemma_obeys_mul(sys, a.x, b.x, w);
}

/// Bits behind the end count for nothing.
proof fn lemma_number_end(w: Values, bits: Seq<Scalar>, n: nat)
    requires
        n >= bits.len(),
    ensures
        number_on(w, bits, n) == number_on(w, bits, bits.len()),
    decreases n,
{
    if n > bits.len() {
        let k = (n - 1) as nat;
        lemma_number_end(w, bits, k);
        lemma_const_takes(w, 0);
        lemma_zero_is_not_one();
        assert(bit_on(w, s_const(0)) == 0);
        let p = pow2(k) as int;
        assert(p * 0 == 0) by (nonlinear_arith);
    }
}

proof fn lemma_zero_is_not_one()
    ensures
        !cong(0, 1, fp_order()),
{
    lemma_fp_order();
    lemma_mod_reduced(0, fp_order());
    lemma_mod_reduced(1, fp_order());
}

/// [`crate::zk::gadgets::scalar_mul_const`] multiplies.
proof fn lemma_scalar_mul_sound(
    sys: System,
    bits: Seq<Scalar>,
    base: GinPoint,
    offset: GinPoint,
    w: Values,
)
    requires
        is_prime(fp_order()),
        gin_group_law(),
        multiplier_right(base, offset, window_count(bits.len())),
        all_binary(w, bits),
        obeys(scalar_mul_system(sys, bits, base, offset).c, w),
    ensures
        obeys(sys.c, w),
        point_takes(
            w,
            scalar_mul_out(sys, bits, base, offset),
            gin_pow((number_on(w, bits, bits.len()) * gin_log(base)) % fs_order()),
        ),
{
    reveal(scalar_mul_system);
    reveal(scalar_mul_out);
    let m = fs_order();
    lemma_fs_order();
    let c = window_count(bits.len());
    let (s, acc) = windows(sys, bits, base, offset, c);
    let neg = gin_neg(offset);
    let (lo, lb) = (gin_log(offset), gin_log(base));
    let n = number_on(w, bits, 3 * c);
    lemma_number_end(w, bits, 3 * c);
    lemma_obeys_add_const(s, acc, neg, w);
    lemma_windows_sound(sys, bits, base, offset, c, w);
    let e1 = lo + n * lb;
    lemma_power(neg, -lo);
    lemma_cong_mod(e1, m);
    lemma_cong_mod(-lo, m);
    lemma_cong_add(e1 % m, e1, (-lo) % m, -lo, m);
    lemma_gin_power_sum(e1 % m, (-lo) % m);
    lemma_add_const_sound(
        s,
        acc,
        w,
        gin_pow(e1 % m),
        neg,
        gin_pow((e1 % m + (-lo) % m) % m),
    );
}

/// The circuit before a sum with a constant.
proof fn lemma_obeys_add_const(sys: System, a: Point, q: GinPoint, w: Values)
    requires
        obeys(add_const_system(sys, a, q).c, w),
    ensures
        obeys(sys.c, w),
{
    let s1 = mul_system(sys, a.x, a.y);
    let (nx, dx, ny, dy) = const_fractions(sys, a, q);
    lemma_obeys_div(div_system(s1, nx, dx), ny, dy, w);
    lemma_obeys_div(s1, nx, dx, w);
    lemma_obeys_mul(sys, a.x, a.y, w);
}

/// A point that is set equal to a constant.
proof fn lemma_eq_point_sound(sys: System, p: Point, q: GinPoint, w: Values)
    requires
        obeys(eq_point_system(sys, p, q).c, w),
    ensures
        obeys(sys.c, w),
        point_takes(w, p, q),
{
    let m = fp_order();
    lemma_fp_order();
    let l1 = lc_add_term(p.x.lc, Variable::One, (-q.x) % m);
    let l2 = lc_add_term(p.y.lc, Variable::One, (-q.y) % m);
    lemma_obeys_constraint(constrained(sys, l1), l2, w);
    lemma_obeys_constraint(sys, l1, w);
    lemma_lc_eval_add_term(p.x.lc, Variable::One, (-q.x) % m, w);
    lemma_lc_eval_add_term(p.y.lc, Variable::One, (-q.y) % m, w);
    let (ex, ey) = (lc_eval(p.x.lc, w), lc_eval(p.y.lc, w));
    lemma_cong_mod(-q.x, m);
    lemma_cong_mod(-q.y, m);
    let (cx, cy) = ((-q.x) % m, (-q.y) % m);
    assert(cx * 1 == cx && cy * 1 == cy);
    lemma_cong_sub(ex + cx, 0, cx, -q.x, m);
    lemma_cong_sub(ey + cy, 0, cy, -q.y, m);
}

// ─── canonical decompositions ───────────────────────────────────────────────

/// The combination of the bits has the value of their number.
proof fn lemma_bits_lc_sound(g: nat, n: nat, bits: Seq<Scalar>, w: Values)
    requires
        g + n <= usize::MAX,
        n <= bits.len(),
        all_binary(w, bits),
        forall|i: int|
            0 <= i < n ==> (#[trigger] bits[i]).lc == lc_var(
                Variable::MultiplierLeft((g + i) as usize),
            ),
    ensures
        cong(lc_eval(bits_lc(g, n), w), number_on(w, bits, n), fp_order()),
    decreases n,
{
    let m = fp_order();
    lemma_fp_order();
    if n > 0 {
        let k = (n - 1) as nat;
        lemma_bits_lc_sound(g, k, bits, w);
        let p = pow2(k) as int;
        let var = Variable::MultiplierLeft((g + n - 1) as usize);
        lemma_lc_eval_add_term(bits_lc(g, k), var, p % m, w);
        let x = wire(var, w);
        assert(bits[k as int].lc == lc_var(var));
        lemma_wire_takes(w, var);
        lemma_bit_or_zero(w, bits, k);
        let b = bit_on(w, bit_or_zero(bits, k));
        lemma_cong_mod(p, m);
        lemma_cong_mul(p % m, p, x, b, m);
        lemma_cong_add(lc_eval(bits_lc(g, k), w), number_on(w, bits, k), (p % m) * x, p * b, m);
    }
}

/// The number of the bits from bit `i` on.
spec fn high_on(w: Values, bits: Seq<Scalar>, i: nat) -> int
    decreases bits.len() - i,
{
    if i >= bits.len() {
        0
    } else {
        2 * high_on(w, bits, i + 1) + bit_on(w, bits[i as int])
    }
}

/// A number is made of its low and its high bits.
proof fn lemma_high_low(w: Values, bits: Seq<Scalar>, i: nat)
    requires
        i <= bits.len(),
    ensures
        number_on(w, bits, bits.len()) == number_on(w, bits, i) + pow2(i) * high_on(w, bits, i),
    decreases bits.len() - i,
{
    let p = pow2(i) as int;
    if i == bits.len() {
        assert(p * 0 == 0) by (nonlinear_arith);
    } else {
        lemma_high_low(w, bits, i + 1);
        lemma_pow2_unfold(i + 1);
        let (h, b) = (high_on(w, bits, i + 1), bit_on(w, bits[i as int]));
        assert(p * (2 * h + b) == (2 * p) * h + p * b) by (nonlinear_arith);
    }
}

/// The comparison from the top down to bit `i`: the bits so far are at most those of
/// `p − 1`, and the flag says whether they are equal.
proof fn lemma_chain_sound(sys: System, bits: Seq<Scalar>, i: nat, w: Values)
    requires
        i <= bits.len(),
        all_binary(w, bits),
        fp_order() <= pow2(bits.len()),
        obeys(compare_chain(sys, bits, i).0.c, w),
    ensures
        obeys(sys.c, w),
        ({
            let run = compare_chain(sys, bits, i).1;
            let (h, c) = (high_on(w, bits, i), minus_one() / (pow2(i) as int));
            (takes(w, run, 1) && h == c) || (takes(w, run, 0) && h < c)
        }),
    decreases bits.len() - i,
{
    let m = fp_order();
    let c = minus_one();
    lemma_fp_order();
    lemma_minus_one();
    if i >= bits.len() {
        lemma_const_takes(w, 1);
        lemma_pow2_pos(i);
        vstd::arithmetic::div_mod::lemma_basic_div(c, pow2(i) as int);
    } else {
        let (s, run) = compare_chain(sys, bits, i + 1);
        let b = bits[i as int];
        let s1 = mul_system(s, run, b);
        let o = mul_out(s, run, b);
        assert(binary(w, bits[i as int]));
        lemma_bit_on(w, b);
        let y = bit_on(w, b);
        if !bit(c, i) {
            lemma_obeys_constraint(s1, o.lc, w);
        }
        lemma_obeys_mul(s, run, b, w);
        lemma_chain_sound(sys, bits, i + 1, w);
        let x: int = if takes(w, run, 1) && high_on(w, bits, i + 1) == c / (pow2(i + 1) as int) {
            1
        } else {
            0
        };
        assert(takes(w, run, x));
        lemma_mul_sound(s, run, b, w, x, y);
        lemma_shift_bit(c, i);
        assert(0 * y == 0 && 1 * y == y) by (nonlinear_arith);
        if !bit(c, i) {
            lemma_zero_is_not_one();
            if x == 1 && y == 1 {
                assert(cong(1, 0, m));
            }
        }
    }
}

/// A bound for the number of a list of bits.
proof fn lemma_number_bound(w: Values, bits: Seq<Scalar>, n: nat)
    ensures
        0 <= number_on(w, bits, n) < pow2(n),
    decreases n,
{
    lemma_pow2_pos(n);
    if n > 0 {
        let k = (n - 1) as nat;
        lemma_number_bound(w, bits, k);
        lemma_pow2_unfold(n);
        let (p, b) = (pow2(k) as int, bit_on(w, bit_or_zero(bits, k)));
        assert(0 <= p * b <= p) by (nonlinear_arith)
            requires
                p >= 0,
                b == 0 || b == 1,
        ;
    } else {
        vstd::arithmetic::power2::lemma_pow2(0);
        vstd::arithmetic::power::lemma_pow0(2);
    }
}

/// `2^254 < p`.
proof fn lemma_order_above(n: nat)
    requires
        n < 255,
    ensures
        pow2(n) < fp_order(),
{
    reveal(fp_order);
    vstd::arithmetic::power2::lemma2_to64_rest();
    let q: int = 0x1_0000_0000_0000_0000;
    assert(pow2(64) == q && pow2(62) == 0x4000_0000_0000_0000);
    vstd::arithmetic::power2::lemma_pow2_adds(64, 64);
    assert(pow2(128) == q * q);
    vstd::arithmetic::power2::lemma_pow2_adds(128, 64);
    assert(pow2(192) == (q * q) * q);
    vstd::arithmetic::power2::lemma_pow2_adds(192, 62);
    assert(pow2(254) == ((q * q) * q) * 0x4000_0000_0000_0000);
    if n < 254 {
        vstd::arithmetic::power2::lemma_pow2_strictly_increases(n, 254);
    }
}

/// [`crate::zk::gadgets::bit_decompose`] gives bits whose number stands for the scalar.
/// With as many bits as the order has or more there can be two such numbers.
pub proof fn law_decomposition_stands_for_the_value(sys: System, value: Scalar, n: nat, w: Values)
    requires
        is_prime(fp_order()),
        obeys(decompose_system(sys, value, n).c, w),
    ensures
        obeys(sys.c, w),
        all_binary(w, decompose_out(sys, value, n)),
        0 <= number_on(w, decompose_out(sys, value, n), n) < pow2(n),
        takes(w, value, number_on(w, decompose_out(sys, value, n), n)),
{
    let m = fp_order();
    lemma_fp_order();
    let bits = decompose_out(sys, value, n);
    let vb = value_bits(value.w, n);
    let s0 = bits_system(sys, vb);
    let lc = bits_lc(sys.c.n_mul, n) + lc_neg(value.lc);
    lemma_bits_system(sys, vb);
    lemma_obeys_constraint(s0, lc, w);
    lemma_bits_sound(sys, vb, w);
    assert forall|i: int| 0 <= i < n implies (#[trigger] bits[i]).lc == lc_var(
        Variable::MultiplierLeft((sys.c.n_mul + i) as usize),
    ) by {
        lemma_bits_system(sys, vb.take(i));
    }
    lemma_bits_lc_sound(sys.c.n_mul, n, bits, w);
    lemma_lc_eval_concat(bits_lc(sys.c.n_mul, n), lc_neg(value.lc), w);
    lemma_lc_eval_neg(value.lc, w);
    let e = lc_eval(value.lc, w);
    lemma_cong_sub(lc_eval(lc, w), 0, lc_eval(lc_neg(value.lc), w), -e, m);
    lemma_number_bound(w, bits, n);
}

/// [`crate::zk::gadgets::bit_decompose_canonical`] gives the bits of the integer that
/// the scalar stands for, and no others: their number is below the order of the
/// field.
pub proof fn law_canonical_decomposition_is_unique(sys: System, value: Scalar, n: nat, w: Values)
    requires
        is_prime(fp_order()),
        obeys(canonical_system(sys, value, n).c, w),
    ensures
        obeys(sys.c, w),
        all_binary(w, decompose_out(sys, value, n)),
        number_on(w, decompose_out(sys, value, n), n) == lc_eval(value.lc, w) % fp_order(),
{
    reveal(canonical_system);
    let m = fp_order();
    lemma_fp_order();
    lemma_minus_one();
    let s1 = decompose_system(sys, value, n);
    let bits = decompose_out(sys, value, n);
    if n >= 255 {
        lemma_order_bits(n);
        lemma_obeys_chain(s1, bits, 0, w);
    }
    law_decomposition_stands_for_the_value(sys, value, n, w);
    let e = lc_eval(value.lc, w);
    let v = number_on(w, bits, n);
    if n >= 255 {
        lemma_chain_sound(s1, bits, 0, w);
        lemma_high_low(w, bits, 0);
        vstd::arithmetic::power2::lemma_pow2(0);
        vstd::arithmetic::power::lemma_pow0(2);
        assert(pow2(0) == 1);
        let h = high_on(w, bits, 0);
        assert(1 * h == h);
        assert(minus_one() / 1 == minus_one());
    } else {
        lemma_order_above(n);
    }
    lemma_cong_mod(e, m);
    lemma_cong_small(v, e % m, m);
}

/// The circuit before a comparison.
proof fn lemma_obeys_chain(sys: System, bits: Seq<Scalar>, i: nat, w: Values)
    requires
        i <= bits.len(),
        obeys(compare_chain(sys, bits, i).0.c, w),
    ensures
        obeys(sys.c, w),
    decreases bits.len() - i,
{
    if i < bits.len() {
        let (s, run) = compare_chain(sys, bits, i + 1);
        let b = bits[i as int];
        if !bit(minus_one(), i) {
            lemma_obeys_constraint(mul_system(s, run, b), mul_out(s, run, b).lc, w);
        }
        lemma_obeys_mul(s, run, b, w);
        lemma_obeys_chain(sys, bits, i + 1, w);
    }
}

// ─── the pad circuit ────────────────────────────────────────────────────────

/// The circuit before the windows.
proof fn lemma_obeys_windows(
    sys: System,
    bits: Seq<Scalar>,
    base: GinPoint,
    offset: GinPoint,
    i: nat,
    w: Values,
)
    requires
        obeys(windows(sys, bits, base, offset, i).0.c, w),
    ensures
        obeys(sys.c, w),
    decreases i,
{
    if i > 0 {
        let k = (i - 1) as nat;
        let (s0, acc) = windows(sys, bits, base, offset, k);
        lemma_obeys_step(
            s0,
            acc,
            bit_or_zero(bits, 3 * k),
            bit_or_zero(bits, 3 * k + 1),
            bit_or_zero(bits, 3 * k + 2),
            window_base(base, k),
            w,
        );
        lemma_obeys_windows(sys, bits, base, offset, k, w);
    }
}

/// The circuit before a multiplication.
proof fn lemma_obeys_scalar_mul(
    sys: System,
    bits: Seq<Scalar>,
    base: GinPoint,
    offset: GinPoint,
    w: Values,
)
    requires
        obeys(scalar_mul_system(sys, bits, base, offset).c, w),
    ensures
        obeys(sys.c, w),
{
    reveal(scalar_mul_system);
    let c = window_count(bits.len());
    let (s, acc) = windows(sys, bits, base, offset, c);
    lemma_obeys_add_const(s, acc, gin_neg(offset), w);
    lemma_obeys_windows(sys, bits, base, offset, c, w);
}

/// Points with reduced coordinates that agree on the wires are equal.
proof fn lemma_same_coordinates(w: Values, p: Point, q: GinPoint, r: GinPoint)
    requires
        point_takes(w, p, q),
        point_takes(w, p, r),
        0 <= q.x < fp_order(),
        0 <= q.y < fp_order(),
        0 <= r.x < fp_order(),
        0 <= r.y < fp_order(),
    ensures
        q == r,
{
    lemma_fp_order();
    lemma_cong_small(q.x, r.x, fp_order());
    lemma_cong_small(q.y, r.y, fp_order());
}

/// What the multiples of the generator are computed with is right.
pub open spec fn generator_right(lambda: nat) -> bool {
    &&& gin_generates(gin_pow(1))
    &&& multiplier_right(gin_pow(1), offset_hash()->Some_0, window_count(lambda))
}

/// The shared part of the circuit: the bits are those of a number that gives the
/// public key.
proof fn lemma_shared_sound(sys: System, pk1: GinPoint, sk: Option<int>, lambda: nat, w: Values)
    requires
        generator_right(lambda),
        0 <= pk1.x < fp_order(),
        0 <= pk1.y < fp_order(),
        obeys(shared_system(sys, pk1, sk, lambda).c, w),
    ensures
        obeys(sys.c, w),
        all_binary(w, sk_bits(sys, sk, lambda)),
        gin_in_group(pk1),
        gin_log(pk1) == number_on(w, sk_bits(sys, sk, lambda), lambda) % fs_order(),
{
    reveal(shared_system);
    let m = fs_order();
    lemma_fs_order();
    let vb = value_bits(sk, lambda);
    let s1 = bits_system(sys, vb);
    let bits = sk_bits(sys, sk, lambda);
    let offset = offset_hash()->Some_0;
    let g = gin_pow(1);
    let out = scalar_mul_out(s1, bits, g, offset);
    lemma_eq_point_sound(scalar_mul_system(s1, bits, g, offset), out, pk1, w);
    lemma_obeys_scalar_mul(s1, bits, g, offset, w);
    lemma_bits_sound(sys, vb, w);
    lemma_scalar_mul_sound(s1, bits, g, offset, w);
    lemma_gin_log(g, 1);
    let n = number_on(w, bits, lambda);
    assert(n * 1 == n);
    lemma_gin_power(n % m);
    lemma_same_coordinates(w, out, gin_pow(n % m), pk1);
    lemma_gin_log(pk1, n % m);
}

/// What the multiples of a recipient's points are computed with is right, for points
/// of the prime-order subgroup.
pub open spec fn peer_right(pk2: GinPoint, bases: Bases, lambda: nat) -> bool {
    gin_in_group(pk2) && gin_in_group(bases.h1) && gin_in_group(bases.h2) ==> {
        let (offset, n) = (offset_hash()->Some_0, window_count(lambda));
        &&& multiplier_right(pk2, offset, n)
        &&& multiplier_right(bases.h1, offset, n)
        &&& multiplier_right(bases.h2, offset, n)
    }
}

/// The pad of the secret exponent `sk` and a recipient's key: with `S = PK_2^{sk}`
/// and `k = S.x` it is `β·(H_1^k).x + (H_2^k).x`.
pub open spec fn pad_of(sk: int, pk2: GinPoint, bases: Bases) -> int {
    let k = gin_pow((gin_log(pk2) * sk) % fs_order()).x;
    let t1 = gin_pow((gin_log(bases.h1) * k) % fs_order());
    let t2 = gin_pow((gin_log(bases.h2) * k) % fs_order());
    (bases.beta * t1.x + t2.x) % fp_order()
}

/// The part for one recipient: the committed value is the pad.
proof fn lemma_peer_sound(
    sys: System,
    bits: Seq<Scalar>,
    pk2: GinPoint,
    bases: Bases,
    r_var: Variable,
    lambda: nat,
    w: Values,
)
    requires
        is_prime(fp_order()),
        gin_group_law(),
        bits.len() == lambda,
        all_binary(w, bits),
        gin_in_group(pk2),
        gin_in_group(bases.h1),
        gin_in_group(bases.h2),
        peer_right(pk2, bases, lambda),
        obeys(peer_system(sys, bits, pk2, bases, r_var, lambda).c, w),
    ensures
        obeys(sys.c, w),
        cong(
            wire(r_var, w),
            pad_of(number_on(w, bits, lambda) % fs_order(), pk2, bases),
            fp_order(),
        ),
{
    reveal(peer_system);
    let (p, m) = (fp_order(), fs_order());
    lemma_fp_order();
    lemma_fs_order();
    let offset = offset_hash()->Some_0;
    let s1 = scalar_mul_system(sys, bits, pk2, offset);
    let s = scalar_mul_out(sys, bits, pk2, offset);
    let s2 = canonical_system(s1, s.x, lambda);
    let kb = decompose_out(s1, s.x, lambda);
    let s3 = scalar_mul_system(s2, kb, bases.h1, offset);
    let t1 = scalar_mul_out(s2, kb, bases.h1, offset);
    let s4 = scalar_mul_system(s3, kb, bases.h2, offset);
    let t2 = scalar_mul_out(s3, kb, bases.h2, offset);
    let sum = lc_mul(t1.x.lc, bases.beta) + t2.x.lc;
    lemma_obeys_constraint(s4, sum.push((r_var, minus_one())), w);
    lemma_equal_wire(sum, r_var, w);
    lemma_obeys_scalar_mul(s3, kb, bases.h2, offset, w);
    lemma_obeys_scalar_mul(s2, kb, bases.h1, offset, w);
    law_canonical_decomposition_is_unique(s1, s.x, lambda, w);
    lemma_scalar_mul_sound(sys, bits, pk2, offset, w);
    // S
    let n = number_on(w, bits, lambda);
    let (lp, l1, l2) = (gin_log(pk2), gin_log(bases.h1), gin_log(bases.h2));
    lemma_same_exponent(n, lp);
    let sp = gin_pow((lp * (n % m)) % m);
    lemma_gin_power((lp * (n % m)) % m);
    // k
    let k = number_on(w, kb, lambda);
    lemma_mod_reduced(sp.x, p);
    assert(k == sp.x);
    // T_1 and T_2
    lemma_scalar_mul_sound(s2, kb, bases.h1, offset, w);
    lemma_scalar_mul_sound(s3, kb, bases.h2, offset, w);
    assert(k * l1 == l1 * k && k * l2 == l2 * k) by (nonlinear_arith);
    let q1 = gin_pow((l1 * k) % m);
    let q2 = gin_pow((l2 * k) % m);
    // r
    lemma_scale_takes(w, t1.x, q1.x, bases.beta);
    lemma_add_takes(w, s_scale(t1.x, bases.beta), t2.x, q1.x * bases.beta, q2.x);
    assert(s_add(s_scale(t1.x, bases.beta), t2.x).lc == sum);
    let (a, b) = (q1.x, bases.beta);
    assert(a * b == b * a) by (nonlinear_arith);
    lemma_cong_mod(bases.beta * q1.x + q2.x, p);
}

/// An exponent can be reduced before it is multiplied.
proof fn lemma_same_exponent(n: int, l: int)
    ensures
        (n * l) % fs_order() == (l * (n % fs_order())) % fs_order(),
{
    let m = fs_order();
    lemma_fs_order();
    lemma_cong_mod(n, m);
    lemma_cong_mul(l, l, n % m, n, m);
    assert(n * l == l * n) by (nonlinear_arith);
}

/// The circuit before a recipient.
proof fn lemma_obeys_peer(
    sys: System,
    bits: Seq<Scalar>,
    pk2: GinPoint,
    bases: Bases,
    r_var: Variable,
    lambda: nat,
    w: Values,
)
    requires
        is_prime(fp_order()),
        obeys(peer_system(sys, bits, pk2, bases, r_var, lambda).c, w),
    ensures
        obeys(sys.c, w),
{
    reveal(peer_system);
    let offset = offset_hash()->Some_0;
    let s1 = scalar_mul_system(sys, bits, pk2, offset);
    let s = scalar_mul_out(sys, bits, pk2, offset);
    let s2 = canonical_system(s1, s.x, lambda);
    let kb = decompose_out(s1, s.x, lambda);
    let s3 = scalar_mul_system(s2, kb, bases.h1, offset);
    let t1 = scalar_mul_out(s2, kb, bases.h1, offset);
    let s4 = scalar_mul_system(s3, kb, bases.h2, offset);
    let t2 = scalar_mul_out(s3, kb, bases.h2, offset);
    let sum = lc_mul(t1.x.lc, bases.beta) + t2.x.lc;
    lemma_obeys_constraint(s4, sum.push((r_var, minus_one())), w);
    lemma_obeys_scalar_mul(s3, kb, bases.h2, offset, w);
    lemma_obeys_scalar_mul(s2, kb, bases.h1, offset, w);
    law_canonical_decomposition_is_unique(s1, s.x, lambda, w);
    lemma_obeys_scalar_mul(sys, bits, pk2, offset, w);
}

/// The committed values are the pads of the holder of the secret key of `pk1` with
/// the recipients' keys, where the points are in the prime-order subgroup.
pub open spec fn pads_on(
    w: Values,
    pk1: GinPoint,
    pks: Seq<GinPoint>,
    bases: Bases,
    r_vars: Seq<Variable>,
) -> bool {
    &&& gin_in_group(pk1)
    &&& gin_in_group(bases.h1) && gin_in_group(bases.h2) ==> forall|i: int|
        0 <= i < pks.len() && gin_in_group(#[trigger] pks[i]) ==> cong(
            wire(r_vars[i], w),
            pad_of(gin_log(pk1), pks[i], bases),
            fp_order(),
        )
}

/// Whatever values satisfy the circuit, `pk1` has a secret key and the committed
/// values are its pads.
pub open spec fn pads_bound(
    c: Circuit,
    pk1: GinPoint,
    pks: Seq<GinPoint>,
    bases: Bases,
    r_vars: Seq<Variable>,
) -> bool {
    forall|w: Values| #[trigger] satisfied(c, w) ==> pads_on(w, pk1, pks, bases, r_vars)
}

/// The parts for the first `i` recipients.
proof fn lemma_peers_sound(
    sys: System,
    bits: Seq<Scalar>,
    pks: Seq<GinPoint>,
    bases: Bases,
    r_vars: Seq<Variable>,
    lambda: nat,
    i: nat,
    w: Values,
)
    requires
        is_prime(fp_order()),
        gin_group_law(),
        bits.len() == lambda,
        i <= pks.len(),
        forall|j: int| 0 <= j < i ==> peer_right(#[trigger] pks[j], bases, lambda),
        obeys(peers_system(sys, bits, pks, bases, r_vars, lambda, i).c, w),
    ensures
        obeys(sys.c, w),
        all_binary(w, bits) && gin_in_group(bases.h1) && gin_in_group(bases.h2) ==> forall|j: int|
            0 <= j < i && gin_in_group(#[trigger] pks[j]) ==> cong(
                wire(r_vars[j], w),
                pad_of(number_on(w, bits, lambda) % fs_order(), pks[j], bases),
                fp_order(),
            ),
    decreases i,
{
    if i > 0 {
        let k = (i - 1) as nat;
        let s = peers_system(sys, bits, pks, bases, r_vars, lambda, k);
        lemma_obeys_peer(s, bits, pks[i - 1], bases, r_vars[i - 1], lambda, w);
        lemma_peers_sound(sys, bits, pks, bases, r_vars, lambda, k, w);
        assert(peer_right(pks[i - 1], bases, lambda));
        if all_binary(w, bits) && gin_in_group(bases.h1) && gin_in_group(bases.h2) && gin_in_group(
            pks[i - 1],
        ) {
            lemma_peer_sound(s, bits, pks[i - 1], bases, r_vars[i - 1], lambda, w);
        }
    }
}

/// The pad circuit is sound: whatever values satisfy it, `pk1` has a secret key, and
/// the values committed to are the pads of that key with the recipients' keys.
pub proof fn law_pads_are_bound(
    sys: System,
    pk1: GinPoint,
    sk: Option<int>,
    pks: Seq<GinPoint>,
    bases: Bases,
    r_vars: Seq<Variable>,
    lambda: nat,
)
    requires
        generator_right(lambda),
        forall|j: int| 0 <= j < pks.len() ==> peer_right(#[trigger] pks[j], bases, lambda),
        0 <= pk1.x < fp_order(),
        0 <= pk1.y < fp_order(),
        batch_system(sys, pk1, sk, pks, bases, r_vars, lambda).c.n_mul <= usize::MAX,
    ensures
        pads_bound(
            batch_system(sys, pk1, sk, pks, bases, r_vars, lambda).c,
            pk1,
            pks,
            bases,
            r_vars,
        ),
{
    let c = batch_system(sys, pk1, sk, pks, bases, r_vars, lambda).c;
    let s1 = shared_system(sys, pk1, sk, lambda);
    let bits = sk_bits(sys, sk, lambda);
    assert forall|w: Values| #[trigger] satisfied(c, w) implies pads_on(
        w,
        pk1,
        pks,
        bases,
        r_vars,
    ) by {
        assert(obeys(c, w));
        assert(bits.len() == lambda);
        lemma_peers_sound(s1, bits, pks, bases, r_vars, lambda, pks.len(), w);
        lemma_shared_sound(sys, pk1, sk, lambda, w);
    }
}

/// The pad that an honest prover's witness holds is the one that the circuit allows.
pub proof fn law_witness_pad(sk: int, pk2: GinPoint, bases: Bases, wit: EvrfWitness)
    requires
        gin_in_group(pk2),
        gin_in_group(bases.h1),
        gin_in_group(bases.h2),
        witness_made(sk, pk2, bases.h1, bases.h2, bases.beta, wit),
    ensures
        wit.r@ == pad_of(sk, pk2, bases),
{
    let m = fs_order();
    lemma_fs_order();
    let x = wit.s@.x;
    lemma_same_exponent(x, gin_log(bases.h1));
    lemma_same_exponent(x, gin_log(bases.h2));
    let (l1, l2) = (gin_log(bases.h1), gin_log(bases.h2));
    assert(x * l1 == l1 * x && x * l2 == l2 * x) by (nonlinear_arith);
}

} // verus!
