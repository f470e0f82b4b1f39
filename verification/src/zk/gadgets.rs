//! Gadgets for the pad circuit.
//!
//! The field of the constraints is `F_p`, which is also the base field of Jubjub, so
//! that point arithmetic is native in the circuit.
//!
//! Every gadget keeps a parallel witness: the prover threads `Some(value)` through,
//! the verifier passes `None`. The constraint system itself sees linear combinations
//! and gates only, so that both sides build the same circuit: what a gadget adds to a
//! circuit is a function of the circuit and of the combinations that it is given.
//!
//! | gadget                     | gates              |
//! |----------------------------|--------------------|
//! | `bit_decompose(λ)`         | `λ`                |
//! | `bit_decompose_canonical`  | `λ`, or `2λ`       |
//! | `add_const`                | 3                  |
//! | `add_var`                  | 7                  |
//! | `on_curve`                 | 3                  |
//! | `scalar_mul_const(λ)`      | `10·⌈λ/3⌉ + 3`     |
use crate::algebra::{
    cong, lemma_cong_add, lemma_cong_mod, lemma_cong_mul, lemma_cong_small, lemma_cong_sub,
    lemma_mod_reduced,
};
use crate::curves::{
    double_defined, ed_a, ed_d, ed_sum, gin_double, gin_identity, gin_in_group, gin_is_pow, gin_log,
    gin_neg, gin_on_curve, gin_sum, lemma_gin_log, sum_defined, sum_is, Fp, Fs, GinAffine, GinPoint,
};
use crate::field::{bit, fp_order, fs_order, lemma_fp_order, lemma_fp_range, lemma_fs_order};
use crate::hash_to_curve::{gin_hash, hash_to_gin, try_hash_to_gin};
use crate::lagrange::{inv, lemma_inv, lemma_inv_unique};
use crate::zk::honest::{
    extends, good, lemma_bit_honest, lemma_bits_honest, lemma_canonical_honest,
    lemma_const_fractions_right, lemma_const_right, lemma_decompose_honest, lemma_div_honest,
    lemma_eq_point_honest, lemma_extends_point, lemma_extends_right, lemma_extends_self,
    lemma_extends_trans, lemma_on_curve_honest, lemma_var_fractions_right, lemma_window_honest,
    point_right, right,
};
use crate::zk::r1cs::{
    lc_add_term, lc_const, lc_eval, lc_in, lc_mul, lc_neg, lc_var, minus_one, next_gate, var_in,
    with_constraint, with_gate, with_inputs, Circuit, ConstraintSystem, Lc, LinearCombination,
    Values, Variable,
};
use vstd::arithmetic::power2::pow2;
use vstd::prelude::*;
use vstd::string::StringSliceAdditionalSpecFns;

verus! {

/// Number of bits of a scalar decomposition: enough for an element of `F_p` and for
/// one of `F_s`.
pub const LAMBDA: usize = 255;

/// Number of scalar bits that one step of [`scalar_mul_const`] takes.
pub const WINDOW: usize = 3;

// ─── values in the circuit ──────────────────────────────────────────────────

/// A scalar in the circuit: a linear combination and the prover's value.
#[derive(Debug)]
pub struct ScalarVar {
    pub lc: LinearCombination,
    pub w: Option<Fp>,
}

/// A scalar in contracts.
pub struct Scalar {
    pub lc: Lc,
    pub w: Option<int>,
}

impl View for ScalarVar {
    type V = Scalar;

    open spec fn view(&self) -> Scalar {
        Scalar {
            lc: self.lc@,
            w: match self.w {
                Some(v) => Some(v@),
                None => None,
            },
        }
    }
}

impl Clone for ScalarVar {
    fn clone(&self) -> (r: Self)
        ensures
            r@ == self@,
    {
        ScalarVar { lc: self.lc.clone(), w: self.w }
    }
}

/// A circuit and, for the prover, the values on its wires.
#[verifier::ext_equal]
pub struct System {
    pub c: Circuit,
    pub w: Option<Values>,
}

/// What a constraint system consists of.
pub open spec fn system<CS: ConstraintSystem>(cs: CS) -> System {
    System { c: cs.circuit(), w: cs.values() }
}

/// `s` uses wires that exist, and the prover knows its value.
pub open spec fn fits(sys: System, s: Scalar) -> bool {
    &&& lc_in(s.lc, sys.c.n_mul, sys.c.n_committed)
    &&& sys.w is Some ==> s.w is Some
}

/// `f(a, b)` where both are known.
pub open spec fn both(a: Option<int>, b: Option<int>, f: spec_fn(int, int) -> int) -> Option<int> {
    match (a, b) {
        (Some(x), Some(y)) => Some(f(x, y)),
        _ => None,
    }
}

pub open spec fn s_const(v: int) -> Scalar {
    Scalar { lc: lc_const(v), w: Some(v) }
}

pub open spec fn s_add(a: Scalar, b: Scalar) -> Scalar {
    Scalar { lc: a.lc + b.lc, w: both(a.w, b.w, |x: int, y: int| (x + y) % fp_order()) }
}

pub open spec fn s_sub(a: Scalar, b: Scalar) -> Scalar {
    Scalar { lc: a.lc + lc_neg(b.lc), w: both(a.w, b.w, |x: int, y: int| (x - y) % fp_order()) }
}

pub open spec fn s_scale(a: Scalar, c: int) -> Scalar {
    Scalar {
        lc: lc_mul(a.lc, c),
        w: match a.w {
            Some(x) => Some((x * c) % fp_order()),
            None => None,
        },
    }
}

pub open spec fn s_shift(a: Scalar, c: int) -> Scalar {
    Scalar {
        lc: lc_add_term(a.lc, Variable::One, c),
        w: match a.w {
            Some(x) => Some((x + c) % fp_order()),
            None => None,
        },
    }
}

impl ScalarVar {
    pub fn constant(v: Fp) -> (r: Self)
        ensures
            r@ == s_const(v@),
    {
        ScalarVar { lc: LinearCombination::constant(v), w: Some(v) }
    }

    /// A committed value. The prover's value is the one it has committed to.
    pub fn from_committed<CS: ConstraintSystem>(cs: &CS, v: Variable, witness: Option<Fp>) -> (r:
        Self)
        requires
            cs.well_formed(),
            var_in(v, cs.circuit().n_mul, cs.circuit().n_committed),
        ensures
            r@.lc == lc_var(v),
            r@.w == (match cs.values() {
                Some(w) => Some(lc_eval(lc_var(v), w) % fp_order()),
                None => match witness {
                    Some(x) => Some(x@),
                    None => None,
                },
            }),
    {
        let lc = LinearCombination::from(v);
        proof {
            assert(lc_in(lc@, cs.circuit().n_mul, cs.circuit().n_committed));
        }
        let w = match cs.eval(&lc) {
            Some(x) => Some(x),
            None => witness,
        };
        ScalarVar { lc, w }
    }

    pub fn add(&self, other: &Self) -> (r: Self)
        ensures
            r@ == s_add(self@, other@),
    {
        let w = match (self.w, other.w) {
            (Some(a), Some(b)) => Some(a + b),
            _ => None,
        };
        ScalarVar { lc: self.lc.clone().plus(other.lc.clone()), w }
    }

    pub fn sub(&self, other: &Self) -> (r: Self)
        ensures
            r@ == s_sub(self@, other@),
    {
        let w = match (self.w, other.w) {
            (Some(a), Some(b)) => Some(a - b),
            _ => None,
        };
        ScalarVar { lc: self.lc.clone().plus(other.lc.clone().negate()), w }
    }

    pub fn scale(&self, c: Fp) -> (r: Self)
        ensures
            r@ == s_scale(self@, c@),
    {
        let w = match self.w {
            Some(a) => Some(a * c),
            None => None,
        };
        ScalarVar { lc: self.lc.clone().scaled(c), w }
    }

    pub fn shift(&self, c: Fp) -> (r: Self)
        ensures
            r@ == s_shift(self@, c@),
    {
        let w = match self.w {
            Some(a) => Some(a + c),
            None => None,
        };
        ScalarVar { lc: self.lc.clone() + c, w }
    }
}

/// A point in the circuit, in affine Edwards coordinates.
#[derive(Debug)]
pub struct PointVar {
    pub x: ScalarVar,
    pub y: ScalarVar,
    pub w: Option<GinAffine>,
}

impl Clone for PointVar {
    fn clone(&self) -> (r: Self)
        ensures
            r@ == self@,
    {
        PointVar { x: self.x.clone(), y: self.y.clone(), w: self.w }
    }
}

/// A point in contracts.
pub struct Point {
    pub x: Scalar,
    pub y: Scalar,
    pub w: Option<GinPoint>,
}

impl View for PointVar {
    type V = Point;

    open spec fn view(&self) -> Point {
        Point {
            x: self.x@,
            y: self.y@,
            w: match self.w {
                Some(p) => Some(p@),
                None => None,
            },
        }
    }
}

pub open spec fn p_const(p: GinPoint) -> Point {
    Point { x: s_const(p.x), y: s_const(p.y), w: Some(p) }
}

/// The coordinates and the point are known together, and agree.
pub open spec fn consistent(p: Point) -> bool {
    match (p.x.w, p.y.w, p.w) {
        (Some(x), Some(y), Some(q)) => x == q.x && y == q.y,
        (None, None, None) => true,
        _ => false,
    }
}

/// Both coordinates fit, and agree with the point.
pub open spec fn point_fits(sys: System, p: Point) -> bool {
    fits(sys, p.x) && fits(sys, p.y) && consistent(p)
}

impl PointVar {
    pub fn constant(p: &GinAffine) -> (r: Self)
        ensures
            r@ == p_const(p@),
    {
        PointVar { x: ScalarVar::constant(p.x), y: ScalarVar::constant(p.y), w: Some(*p) }
    }

    pub fn from_xy(x: ScalarVar, y: ScalarVar) -> (r: Self)
        ensures
            r@.x == x@,
            r@.y == y@,
            r@.w == (match (x@.w, y@.w) {
                (Some(a), Some(b)) => Some(GinPoint { x: a, y: b }),
                _ => None,
            }),
    {
        let w = match (x.w, y.w) {
            (Some(a), Some(b)) => Some(GinAffine::new_unchecked(a, b)),
            _ => None,
        };
        PointVar { x, y, w }
    }
}

// ─── gates ──────────────────────────────────────────────────────────────────

/// The system with a constraint more.
pub open spec fn constrained(sys: System, lc: Lc) -> System {
    System { c: with_constraint(sys.c, lc), w: sys.w }
}

/// The system with a gate more, whose inputs have the given values.
pub open spec fn gated(sys: System, l: Option<int>, r: Option<int>) -> System {
    System {
        c: with_gate(sys.c),
        w: match sys.w {
            Some(w) => Some(with_inputs(w, l->Some_0, r->Some_0)),
            None => None,
        },
    }
}

/// A gate with the inputs `a` and `b`.
pub open spec fn mul_system(sys: System, a: Scalar, b: Scalar) -> System {
    let g = next_gate(sys.c);
    constrained(
        constrained(gated(sys, a.w, b.w), a.lc.push((g.0, minus_one()))),
        b.lc.push((g.1, minus_one())),
    )
}

/// The output of [`mul_system`].
pub open spec fn mul_out(sys: System, a: Scalar, b: Scalar) -> Scalar {
    Scalar {
        lc: lc_var(next_gate(sys.c).2),
        w: both(a.w, b.w, |x: int, y: int| (x * y) % fp_order()),
    }
}

/// `n / d` as the prover computes it.
pub open spec fn quotient(num: Scalar, den: Scalar) -> Option<int> {
    both(num.w, den.w, |n: int, d: int| (n * inv(d)) % fp_order())
}

/// A gate with the quotient as a free input, `den` as the other one and `num` as
/// its output.
pub open spec fn div_system(sys: System, num: Scalar, den: Scalar) -> System {
    let g = next_gate(sys.c);
    constrained(
        constrained(gated(sys, quotient(num, den), den.w), den.lc.push((g.1, minus_one()))),
        num.lc.push((g.2, minus_one())),
    )
}

/// The quotient of [`div_system`].
pub open spec fn div_out(sys: System, num: Scalar, den: Scalar) -> Scalar {
    Scalar { lc: lc_var(next_gate(sys.c).0), w: quotient(num, den) }
}

/// What every gadget leaves alone, and what it turns the system into.
pub open spec fn built<CS: ConstraintSystem>(before: CS, after: CS, sys: System) -> bool {
    &&& after.well_formed()
    &&& after.context() == before.context()
    &&& system(after) == sys
}

proof fn lemma_lc_in_push(lc: Lc, v: Variable, c: int, n: nat, n2: nat, m: nat)
    requires
        lc_in(lc, n, m),
        n <= n2,
        var_in(v, n2, m),
    ensures
        lc_in(lc, n2, m),
        lc_in(lc.push((v, c)), n2, m),
{
    assert forall|k: int| 0 <= k < lc.len() implies var_in((#[trigger] lc[k]).0, n2, m) by {
        assert(var_in(lc[k].0, n, m));
    }
    let l2 = lc.push((v, c));
    assert forall|k: int| 0 <= k < l2.len() implies var_in((#[trigger] l2[k]).0, n2, m) by {
        if k < lc.len() {
            assert(var_in(lc[k].0, n, m));
        }
    }
}

/// `a · b`, both inputs constrained.
fn mul_gate<CS: ConstraintSystem>(cs: &mut CS, a: &ScalarVar, b: &ScalarVar) -> (r: ScalarVar)
    requires
        old(cs).well_formed(),
        old(cs).circuit().n_mul < usize::MAX,
        fits(system(*old(cs)), a@),
        fits(system(*old(cs)), b@),
    ensures
        built(*old(cs), *final(cs), mul_system(system(*old(cs)), a@, b@)),
        r@ == mul_out(system(*old(cs)), a@, b@),
{
    let ghost s0 = system(*cs);
    let assignment = match (a.w, b.w) {
        (Some(x), Some(y)) => Some((x, y)),
        _ => None,
    };
    let (vl, vr, vo) = cs.allocate_multiplier(assignment).unwrap();
    proof {
        let (n, m) = (s0.c.n_mul, s0.c.n_committed);
        lemma_lc_in_push(a@.lc, vl, minus_one(), n, n + 1, m);
        lemma_lc_in_push(b@.lc, vr, minus_one(), n, n + 1, m);
    }
    cs.constrain(a.lc.clone() - vl);
    cs.constrain(b.lc.clone() - vr);
    let w = match assignment {
        Some((x, y)) => Some(x * y),
        None => None,
    };
    ScalarVar { lc: LinearCombination::from(vo), w }
}

/// `num / den`: the quotient is a free wire, and its product with `den` is `num`.
fn div_gate<CS: ConstraintSystem>(cs: &mut CS, num: &ScalarVar, den: &ScalarVar) -> (r: ScalarVar)
    requires
        old(cs).well_formed(),
        old(cs).circuit().n_mul < usize::MAX,
        fits(system(*old(cs)), num@),
        fits(system(*old(cs)), den@),
        num.w is Some ==> (den@.w matches Some(d) ==> d != 0),
    ensures
        built(*old(cs), *final(cs), div_system(system(*old(cs)), num@, den@)),
        r@ == div_out(system(*old(cs)), num@, den@),
        num.w is Some ==> (den@.w matches Some(d) ==> cong(d * inv(d), 1, fp_order())),
{
    let ghost s0 = system(*cs);
    let q = match (num.w, den.w) {
        (Some(n), Some(d)) => {
            let v = d.inverse().unwrap();
            proof {
                lemma_fp_order();
                lemma_mod_reduced(1, fp_order());
                lemma_inv_unique(d@, v@);
                lemma_inv(d@);
                lemma_fp_range(v);
                lemma_cong_small(inv(d@), v@, fp_order());
            }
            Some(n * v)
        },
        _ => None,
    };
    let assignment = match (q, den.w) {
        (Some(x), Some(d)) => Some((x, d)),
        _ => None,
    };
    let (vl, vr, vo) = cs.allocate_multiplier(assignment).unwrap();
    proof {
        let (n, m) = (s0.c.n_mul, s0.c.n_committed);
        lemma_lc_in_push(den@.lc, vr, minus_one(), n, n + 1, m);
        lemma_lc_in_push(num@.lc, vo, minus_one(), n, n + 1, m);
    }
    cs.constrain(den.lc.clone() - vr);
    cs.constrain(num.lc.clone() - vo);
    ScalarVar { lc: LinearCombination::from(vl), w: q }
}

/// `sys2` has all wires of `sys`, and is one of the same side.
pub open spec fn larger(sys: System, sys2: System) -> bool {
    &&& sys.c.n_mul <= sys2.c.n_mul
    &&& sys.c.n_committed == sys2.c.n_committed
    &&& sys.w is Some <==> sys2.w is Some
}

proof fn lemma_fits_larger(sys: System, sys2: System, a: Scalar)
    requires
        larger(sys, sys2),
        fits(sys, a),
    ensures
        fits(sys2, a),
{
    assert forall|k: int| 0 <= k < a.lc.len() implies var_in(
        (#[trigger] a.lc[k]).0,
        sys2.c.n_mul,
        sys2.c.n_committed,
    ) by {
        assert(var_in(a.lc[k].0, sys.c.n_mul, sys.c.n_committed));
    }
}

proof fn lemma_fits_ops(sys: System, a: Scalar, b: Scalar)
    requires
        fits(sys, a),
        fits(sys, b),
    ensures
        fits(sys, s_add(a, b)),
        fits(sys, s_sub(a, b)),
        forall|c: int| fits(sys, #[trigger] s_scale(a, c)),
        forall|c: int| fits(sys, #[trigger] s_shift(a, c)),
        forall|c: int| fits(sys, #[trigger] s_scale(b, c)),
        forall|c: int| fits(sys, #[trigger] s_shift(b, c)),
{
    let (n, m) = (sys.c.n_mul, sys.c.n_committed);
    let l1 = a.lc + b.lc;
    assert forall|k: int| 0 <= k < l1.len() implies var_in((#[trigger] l1[k]).0, n, m) by {
        if k < a.lc.len() {
            assert(var_in(a.lc[k].0, n, m));
        } else {
            assert(var_in(b.lc[k - a.lc.len()].0, n, m));
        }
    }
    let l2 = a.lc + lc_neg(b.lc);
    assert forall|k: int| 0 <= k < l2.len() implies var_in((#[trigger] l2[k]).0, n, m) by {
        if k < a.lc.len() {
            assert(var_in(a.lc[k].0, n, m));
        } else {
            assert(var_in(b.lc[k - a.lc.len()].0, n, m));
        }
    }
    assert forall|c: int| fits(sys, #[trigger] s_scale(a, c)) by {
        lemma_fits_scaled(sys, a, c);
    }
    assert forall|c: int| fits(sys, #[trigger] s_shift(a, c)) by {
        lemma_fits_scaled(sys, a, c);
    }
    assert forall|c: int| fits(sys, #[trigger] s_scale(b, c)) by {
        lemma_fits_scaled(sys, b, c);
    }
    assert forall|c: int| fits(sys, #[trigger] s_shift(b, c)) by {
        lemma_fits_scaled(sys, b, c);
    }
}

proof fn lemma_fits_scaled(sys: System, a: Scalar, c: int)
    requires
        fits(sys, a),
    ensures
        fits(sys, s_scale(a, c)),
        fits(sys, s_shift(a, c)),
{
    let (n, m) = (sys.c.n_mul, sys.c.n_committed);
    let l3 = lc_mul(a.lc, c);
    assert forall|k: int| 0 <= k < l3.len() implies var_in((#[trigger] l3[k]).0, n, m) by {
        assert(var_in(a.lc[k].0, n, m));
    }
    let l4 = lc_add_term(a.lc, Variable::One, c);
    assert forall|k: int| 0 <= k < l4.len() implies var_in((#[trigger] l4[k]).0, n, m) by {
        if k < a.lc.len() {
            assert(var_in(a.lc[k].0, n, m));
        }
    }
}

/// The output of a gate fits behind it.
proof fn lemma_fits_gate(sys: System, a: Scalar, b: Scalar)
    requires
        sys.c.n_mul < usize::MAX,
        fits(sys, a),
        fits(sys, b),
    ensures
        larger(sys, mul_system(sys, a, b)),
        larger(sys, div_system(sys, a, b)),
        fits(mul_system(sys, a, b), mul_out(sys, a, b)),
        fits(div_system(sys, a, b), div_out(sys, a, b)),
{
}

// ─── points ─────────────────────────────────────────────────────────────────

/// `num / den` where the quotient is known up to congruence.
proof fn lemma_quotient(num: int, den: int, n: int, d: int, r: int)
    requires
        cong(num, n, fp_order()),
        cong(den, d, fp_order()),
        cong(r * d, n, fp_order()),
        cong(den * inv(den), 1, fp_order()),
        0 <= r < fp_order(),
    ensures
        (num * inv(den)) % fp_order() == r,
{
    let m = fp_order();
    lemma_fp_order();
    let v = inv(den);
    lemma_cong_mul(r, r, den, d, m);
    // num ≡ r·den
    lemma_cong_mul(num, r * den, v, v, m);
    assert((r * den) * v == r * (den * v)) by (nonlinear_arith);
    lemma_cong_mul(r, r, den * v, 1, m);
    assert(r * 1 == r);
    lemma_mod_reduced(r, m);
}

/// `(x1·y1)·(d·cx·cy)`, as it is computed, is `d·(x1·cx)·(y1·cy)`.
proof fn lemma_const_product(x1: int, y1: int, cx: int, cy: int, d: int)
    ensures
        cong(
            (((x1 * y1) % fp_order()) * ((d * (cx * cy)) % fp_order())) % fp_order(),
            d * ((x1 * cx) * (y1 * cy)),
            fp_order(),
        ),
{
    let m = fp_order();
    lemma_fp_order();
    let (u, k) = (x1 * y1, d * (cx * cy));
    lemma_cong_mod(u, m);
    lemma_cong_mod(k, m);
    lemma_cong_mul(u % m, u, k % m, k, m);
    lemma_cong_mod((u % m) * (k % m), m);
    assert((x1 * y1) * (d * (cx * cy)) == d * ((x1 * cx) * (y1 * cy))) by {
        let (a, b) = (x1 * y1, cx * cy);
        assert(a * (d * b) == d * (a * b)) by (nonlinear_arith);
        assert((x1 * y1) * (cx * cy) == (x1 * cx) * (y1 * cy)) by (nonlinear_arith);
    }
}

/// The denominators `1 ± t` as they are computed from a value congruent to `t`.
proof fn lemma_denominators(e: int, t: int)
    requires
        cong(e, t, fp_order()),
    ensures
        cong((e + 1) % fp_order(), 1 + t, fp_order()),
        cong(((e * minus_one()) % fp_order() + 1) % fp_order(), 1 - t, fp_order()),
{
    let m = fp_order();
    lemma_fp_order();
    lemma_cong_mod(e + 1, m);
    lemma_cong_add(e, t, 1, 1, m);
    let f = (e * minus_one()) % m;
    crate::zk::r1cs::lemma_minus_one();
    lemma_cong_mod(-1, m);
    lemma_cong_mod(e * minus_one(), m);
    lemma_cong_mul(e, t, minus_one(), -1, m);
    assert(t * (-1) == -t) by (nonlinear_arith);
    lemma_cong_add(f, -t, 1, 1, m);
    lemma_cong_mod(f + 1, m);
}

/// `a·x + b·y` as it is computed.
proof fn lemma_combination(x: int, a: int, y: int, b: int)
    ensures
        cong(((x * a) % fp_order() + (y * b) % fp_order()) % fp_order(), x * a + y * b, fp_order()),
        cong(((x * a) % fp_order() - (y * b) % fp_order()) % fp_order(), x * a - y * b, fp_order()),
{
    let m = fp_order();
    lemma_fp_order();
    lemma_cong_mod(x * a, m);
    lemma_cong_mod(y * b, m);
    lemma_cong_add((x * a) % m, x * a, (y * b) % m, y * b, m);
    lemma_cong_sub((x * a) % m, x * a, (y * b) % m, y * b, m);
    lemma_cong_mod((x * a) % m + (y * b) % m, m);
    lemma_cong_mod((x * a) % m - (y * b) % m, m);
}

/// The numerators and denominators of [`add_const`].
pub open spec fn const_fractions(sys: System, p: Point, q: GinPoint) -> (
    Scalar,
    Scalar,
    Scalar,
    Scalar,
) {
    let u = mul_out(sys, p.x, p.y);
    let e = s_scale(u, (ed_d() * (q.x * q.y)) % fp_order());
    (
        s_add(s_scale(p.x, q.y), s_scale(p.y, q.x)),
        s_shift(e, 1),
        s_sub(s_scale(p.y, q.y), s_scale(p.x, (ed_a() * q.x) % fp_order())),
        s_shift(s_scale(e, minus_one()), 1),
    )
}

/// What [`add_const`] makes of a system.
pub open spec fn add_const_system(sys: System, p: Point, q: GinPoint) -> System {
    let s1 = mul_system(sys, p.x, p.y);
    let (nx, dx, ny, dy) = const_fractions(sys, p, q);
    div_system(div_system(s1, nx, dx), ny, dy)
}

/// The sum that [`add_const`] gives.
pub open spec fn add_const_out(sys: System, p: Point, q: GinPoint) -> Point {
    let s1 = mul_system(sys, p.x, p.y);
    let (nx, dx, ny, dy) = const_fractions(sys, p, q);
    Point {
        x: div_out(s1, nx, dx),
        y: div_out(div_system(s1, nx, dx), ny, dy),
        w: match p.w {
            Some(pw) => Some(gin_sum(pw, q)),
            None => None,
        },
    }
}

/// The values of [`const_fractions`], for a sum `r`.
proof fn lemma_const_fractions(sys: System, p: Point, q: GinPoint, pw: GinPoint, r: GinPoint)
    requires
        p.x.w == Some(pw.x),
        p.y.w == Some(pw.y),
        ed_sum(pw, q, r),
    ensures
        ({
            let (nx, dx, ny, dy) = const_fractions(sys, p, q);
            let t = ed_d() * ((pw.x * q.x) * (pw.y * q.y));
            &&& nx.w is Some && dx.w is Some && ny.w is Some && dy.w is Some
            &&& cong(nx.w->Some_0, pw.x * q.y + pw.y * q.x, fp_order())
            &&& cong(ny.w->Some_0, pw.y * q.y - ed_a() * (pw.x * q.x), fp_order())
            &&& cong(dx.w->Some_0, 1 + t, fp_order())
            &&& cong(dy.w->Some_0, 1 - t, fp_order())
            &&& dx.w->Some_0 != 0
            &&& dy.w->Some_0 != 0
        }),
{
    let m = fp_order();
    lemma_fp_order();
    let (x1, y1, cx, cy) = (pw.x, pw.y, q.x, q.y);
    lemma_const_product(x1, y1, cx, cy, ed_d());
    let t = ed_d() * ((x1 * cx) * (y1 * cy));
    let e = (((x1 * y1) % m) * ((ed_d() * (cx * cy)) % m)) % m;
    lemma_denominators(e, t);
    lemma_combination(x1, cy, y1, cx);
    let ac = (ed_a() * cx) % m;
    lemma_combination(y1, cy, x1, ac);
    lemma_cong_mod(ed_a() * cx, m);
    lemma_cong_mul(x1, x1, ac, ed_a() * cx, m);
    lemma_cong_sub(y1 * cy, y1 * cy, x1 * ac, x1 * (ed_a() * cx), m);
    let a = ed_a();
    assert(x1 * (a * cx) == a * (x1 * cx)) by (nonlinear_arith);
    let (nx, dx, ny, dy) = const_fractions(sys, p, q);
    assert(dx.w->Some_0 == (e + 1) % m);
    assert(dy.w->Some_0 == ((e * minus_one()) % m + 1) % m);
    lemma_mod_reduced(0, m);
}

/// `P + Q` with `Q` a constant of the circuit. 3 gates.
///
/// ```text
///   x3 = (cy·x1 + cx·y1) / (1 + d·cx·cy·x1·y1)
///   y3 = (cy·y1 − a·cx·x1) / (1 − d·cx·cy·x1·y1)
/// ```
pub fn add_const<CS: ConstraintSystem>(cs: &mut CS, p: &PointVar, q: &GinAffine) -> (r: PointVar)
    requires
        old(cs).well_formed(),
        old(cs).circuit().n_mul + 3 <= usize::MAX,
        point_fits(system(*old(cs)), p@),
        p@.w matches Some(pw) ==> sum_defined(pw, q@),
    ensures
        built(*old(cs), *final(cs), add_const_system(system(*old(cs)), p@, q@)),
        r@ == add_const_out(system(*old(cs)), p@, q@),
        point_fits(system(*final(cs)), r@),
        p@.w matches Some(pw) ==> sum_is(pw, q@, gin_sum(pw, q@)),
        good(system(*old(cs))) && point_right(system(*old(cs)), p@) ==> {
            &&& good(system(*final(cs)))
            &&& extends(system(*old(cs)), system(*final(cs)))
            &&& point_right(system(*final(cs)), r@)
        },
{
    let ghost s0 = system(*cs);
    let pq_w = match p.w {
        Some(pw) => Some(pw.plus(q)),
        None => None,
    };
    let a = GinAffine::coeff_a();
    let d = GinAffine::coeff_d();
    let (cx, cy) = (q.x, q.y);
    let u = mul_gate(cs, &p.x, &p.y);
    let ghost s1 = system(*cs);
    let dcc = d * cx * cy;
    proof {
        let m = fp_order();
        lemma_fp_order();
        lemma_cong_mod(ed_d() * cx@, m);
        lemma_cong_mul((ed_d() * cx@) % m, ed_d() * cx@, cy@, cy@, m);
        let (k, x, y) = (ed_d(), cx@, cy@);
        assert((k * x) * y == k * (x * y)) by (nonlinear_arith);
        crate::zk::r1cs::lemma_minus_one();
    }
    let dccu = u.scale(dcc);
    let den_x = dccu.shift(Fp::one());
    let den_y = dccu.scale(Fp::one().negate()).shift(Fp::one());
    let num_x = p.x.scale(cy).add(&p.y.scale(cx));
    let num_y = p.y.scale(cy).sub(&p.x.scale(a * cx));
    proof {
        assert((num_x@, den_x@, num_y@, den_y@) == const_fractions(s0, p@, q@));
        lemma_fits_gate(s0, p@.x, p@.y);
        lemma_fits_larger(s0, s1, p@.x);
        lemma_fits_larger(s0, s1, p@.y);
        lemma_fits_ops(s1, u@, u@);
        lemma_fits_ops(s1, dccu@, dccu@);
        lemma_fits_scaled(s1, s_scale(dccu@, minus_one()), 1);
        lemma_fits_ops(s1, p@.x, p@.y);
        lemma_fits_ops(s1, s_scale(p@.x, cy@), s_scale(p@.y, cx@));
        lemma_fits_ops(s1, s_scale(p@.y, cy@), s_scale(p@.x, (ed_a() * cx@) % fp_order()));
        if p@.w is Some {
            lemma_const_fractions(s0, p@, q@, p@.w->Some_0, pq_w->Some_0@);
        }
    }
    let x3 = div_gate(cs, &num_x, &den_x);
    let ghost s2 = system(*cs);
    proof {
        lemma_fits_gate(s1, num_x@, den_x@);
        lemma_fits_larger(s1, s2, num_y@);
        lemma_fits_larger(s1, s2, den_y@);
    }
    let y3 = div_gate(cs, &num_y, &den_y);
    let ghost s3 = system(*cs);
    let r = PointVar { x: x3, y: y3, w: pq_w };
    proof {
        lemma_fits_gate(s2, num_y@, den_y@);
        lemma_fits_larger(s2, s3, x3@);
        if p@.w is Some {
            let (pw, rw) = (p@.w->Some_0, pq_w->Some_0@);
            let t = ed_d() * ((pw.x * q@.x) * (pw.y * q@.y));
            lemma_fp_range(pq_w->Some_0.x);
            lemma_fp_range(pq_w->Some_0.y);
            lemma_quotient(
                num_x@.w->Some_0,
                den_x@.w->Some_0,
                pw.x * q@.y + pw.y * q@.x,
                1 + t,
                rw.x,
            );
            lemma_quotient(
                num_y@.w->Some_0,
                den_y@.w->Some_0,
                pw.y * q@.y - ed_a() * (pw.x * q@.x),
                1 - t,
                rw.y,
            );
        }
        if good(s0) && point_right(s0, p@) {
            lemma_const_fractions_right(s0, p@, q@);
            lemma_div_honest(s1, num_x@, den_x@);
            lemma_extends_right(s1, s2, num_y@);
            lemma_extends_right(s1, s2, den_y@);
            lemma_div_honest(s2, num_y@, den_y@);
            lemma_extends_right(s2, s3, x3@);
            lemma_extends_trans(s0, s1, s2);
            lemma_extends_trans(s0, s2, s3);
        }
    }
    r
}

/// The systems on the way to the sum of two points: after each of the five
/// products.
pub open spec fn var_systems(sys: System, p: Point, q: Point) -> (
    System,
    System,
    System,
    System,
    System,
) {
    let s1 = mul_system(sys, p.x, q.x);
    let s2 = mul_system(s1, p.y, q.y);
    let s3 = mul_system(s2, p.x, q.y);
    let s4 = mul_system(s3, p.y, q.x);
    let s5 = mul_system(s4, mul_out(sys, p.x, q.x), mul_out(s1, p.y, q.y));
    (s1, s2, s3, s4, s5)
}

/// The numerators and denominators of [`add_var`].
pub open spec fn var_fractions(sys: System, p: Point, q: Point) -> (Scalar, Scalar, Scalar, Scalar) {
    let (s1, s2, s3, s4, s5) = var_systems(sys, p, q);
    let x1x2 = mul_out(sys, p.x, q.x);
    let y1y2 = mul_out(s1, p.y, q.y);
    let x1y2 = mul_out(s2, p.x, q.y);
    let y1x2 = mul_out(s3, p.y, q.x);
    let dt = s_scale(mul_out(s4, x1x2, y1y2), ed_d());
    (
        s_add(x1y2, y1x2),
        s_shift(dt, 1),
        s_sub(y1y2, s_scale(x1x2, ed_a())),
        s_shift(s_scale(dt, minus_one()), 1),
    )
}

/// What [`add_var`] makes of a system.
pub open spec fn add_var_system(sys: System, p: Point, q: Point) -> System {
    let s5 = var_systems(sys, p, q).4;
    let (nx, dx, ny, dy) = var_fractions(sys, p, q);
    div_system(div_system(s5, nx, dx), ny, dy)
}

/// The sum that [`add_var`] gives.
pub open spec fn add_var_out(sys: System, p: Point, q: Point) -> Point {
    let s5 = var_systems(sys, p, q).4;
    let (nx, dx, ny, dy) = var_fractions(sys, p, q);
    Point {
        x: div_out(s5, nx, dx),
        y: div_out(div_system(s5, nx, dx), ny, dy),
        w: match (p.w, q.w) {
            (Some(pw), Some(qw)) => Some(gin_sum(pw, qw)),
            _ => None,
        },
    }
}

/// The values of [`var_fractions`], for a sum `r`.
proof fn lemma_var_fractions(
    sys: System,
    p: Point,
    q: Point,
    pw: GinPoint,
    qw: GinPoint,
    r: GinPoint,
)
    requires
        p.x.w == Some(pw.x),
        p.y.w == Some(pw.y),
        q.x.w == Some(qw.x),
        q.y.w == Some(qw.y),
        ed_sum(pw, qw, r),
    ensures
        ({
            let (nx, dx, ny, dy) = var_fractions(sys, p, q);
            let t = ed_d() * ((pw.x * qw.x) * (pw.y * qw.y));
            &&& nx.w is Some && dx.w is Some && ny.w is Some && dy.w is Some
            &&& cong(nx.w->Some_0, pw.x * qw.y + pw.y * qw.x, fp_order())
            &&& cong(ny.w->Some_0, pw.y * qw.y - ed_a() * (pw.x * qw.x), fp_order())
            &&& cong(dx.w->Some_0, 1 + t, fp_order())
            &&& cong(dy.w->Some_0, 1 - t, fp_order())
            &&& dx.w->Some_0 != 0
            &&& dy.w->Some_0 != 0
        }),
{
    let m = fp_order();
    lemma_fp_order();
    let (x1, y1, x2, y2) = (pw.x, pw.y, qw.x, qw.y);
    let (a, b) = (x1 * x2, y1 * y2);
    let t = ed_d() * (a * b);
    lemma_cong_mod(a, m);
    lemma_cong_mod(b, m);
    lemma_cong_mul(a % m, a, b % m, b, m);
    let ab = ((a % m) * (b % m)) % m;
    lemma_cong_mod((a % m) * (b % m), m);
    lemma_cong_mul(ab, a * b, ed_d(), ed_d(), m);
    let e = (ab * ed_d()) % m;
    lemma_cong_mod(ab * ed_d(), m);
    let (d, k) = (ed_d(), a * b);
    assert(k * d == d * k) by (nonlinear_arith);
    lemma_denominators(e, t);
    lemma_combination(x1, y2, y1, x2);
    // y1y2 − a·x1x2
    let ax = ((a % m) * ed_a()) % m;
    lemma_cong_mul(a % m, a, ed_a(), ed_a(), m);
    lemma_cong_mod((a % m) * ed_a(), m);
    lemma_cong_sub(b % m, b, ax, a * ed_a(), m);
    lemma_cong_mod(b % m - ax, m);
    let ea = ed_a();
    assert(a * ea == ea * a) by (nonlinear_arith);
    let (nx, dx, ny, dy) = var_fractions(sys, p, q);
    assert(dx.w->Some_0 == (e + 1) % m);
    assert(dy.w->Some_0 == ((e * minus_one()) % m + 1) % m);
    lemma_mod_reduced(0, m);
}

/// `P + Q` for a variable `Q`. 7 gates.
pub fn add_var<CS: ConstraintSystem>(cs: &mut CS, p: &PointVar, q: &PointVar) -> (r: PointVar)
    requires
        old(cs).well_formed(),
        old(cs).circuit().n_mul + 7 <= usize::MAX,
        point_fits(system(*old(cs)), p@),
        point_fits(system(*old(cs)), q@),
        p@.w matches Some(pw) ==> (q@.w matches Some(qw) ==> sum_defined(pw, qw)),
    ensures
        built(*old(cs), *final(cs), add_var_system(system(*old(cs)), p@, q@)),
        r@ == add_var_out(system(*old(cs)), p@, q@),
        point_fits(system(*final(cs)), r@),
        p@.w matches Some(pw) ==> (q@.w matches Some(qw) ==> sum_is(pw, qw, gin_sum(pw, qw))),
        good(system(*old(cs))) && point_right(system(*old(cs)), p@) && point_right(
            system(*old(cs)),
            q@,
        ) ==> {
            &&& good(system(*final(cs)))
            &&& extends(system(*old(cs)), system(*final(cs)))
            &&& point_right(system(*final(cs)), r@)
        },
{
    let ghost s0 = system(*cs);
    let pq_w = match (p.w, q.w) {
        (Some(pw), Some(qw)) => Some(pw.plus(&qw)),
        _ => None,
    };
    let a = GinAffine::coeff_a();
    let d = GinAffine::coeff_d();
    let x1x2 = mul_gate(cs, &p.x, &q.x);
    let ghost s1 = system(*cs);
    proof {
        lemma_fits_gate(s0, p@.x, q@.x);
        lemma_fits_larger(s0, s1, p@.x);
        lemma_fits_larger(s0, s1, p@.y);
        lemma_fits_larger(s0, s1, q@.x);
        lemma_fits_larger(s0, s1, q@.y);
    }
    let y1y2 = mul_gate(cs, &p.y, &q.y);
    let ghost s2 = system(*cs);
    proof {
        lemma_fits_gate(s1, p@.y, q@.y);
        lemma_fits_larger(s1, s2, p@.x);
        lemma_fits_larger(s1, s2, p@.y);
        lemma_fits_larger(s1, s2, q@.x);
        lemma_fits_larger(s1, s2, q@.y);
        lemma_fits_larger(s1, s2, x1x2@);
    }
    let x1y2 = mul_gate(cs, &p.x, &q.y);
    let ghost s3 = system(*cs);
    proof {
        lemma_fits_gate(s2, p@.x, q@.y);
        lemma_fits_larger(s2, s3, p@.y);
        lemma_fits_larger(s2, s3, q@.x);
        lemma_fits_larger(s2, s3, x1x2@);
        lemma_fits_larger(s2, s3, y1y2@);
    }
    let y1x2 = mul_gate(cs, &p.y, &q.x);
    let ghost s4 = system(*cs);
    proof {
        lemma_fits_gate(s3, p@.y, q@.x);
        lemma_fits_larger(s3, s4, x1x2@);
        lemma_fits_larger(s3, s4, y1y2@);
        lemma_fits_larger(s3, s4, x1y2@);
    }
    let t = mul_gate(cs, &x1x2, &y1y2);
    let ghost s5 = system(*cs);
    proof {
        lemma_fits_gate(s4, x1x2@, y1y2@);
        lemma_fits_larger(s4, s5, x1x2@);
        lemma_fits_larger(s4, s5, y1y2@);
        lemma_fits_larger(s4, s5, x1y2@);
        lemma_fits_larger(s4, s5, y1x2@);
        crate::zk::r1cs::lemma_minus_one();
    }
    let dt = t.scale(d);
    let den_x = dt.shift(Fp::one());
    let den_y = dt.scale(Fp::one().negate()).shift(Fp::one());
    let num_x = x1y2.add(&y1x2);
    let num_y = y1y2.sub(&x1x2.scale(a));
    proof {
        assert((num_x@, den_x@, num_y@, den_y@) == var_fractions(s0, p@, q@));
        lemma_fits_ops(s5, t@, t@);
        lemma_fits_ops(s5, dt@, dt@);
        lemma_fits_scaled(s5, s_scale(dt@, minus_one()), 1);
        lemma_fits_ops(s5, x1y2@, y1x2@);
        lemma_fits_ops(s5, x1x2@, x1x2@);
        lemma_fits_ops(s5, y1y2@, s_scale(x1x2@, ed_a()));
        if p@.w is Some && q@.w is Some {
            lemma_var_fractions(s0, p@, q@, p@.w->Some_0, q@.w->Some_0, pq_w->Some_0@);
        }
    }
    let x3 = div_gate(cs, &num_x, &den_x);
    let ghost s6 = system(*cs);
    proof {
        lemma_fits_gate(s5, num_x@, den_x@);
        lemma_fits_larger(s5, s6, num_y@);
        lemma_fits_larger(s5, s6, den_y@);
    }
    let y3 = div_gate(cs, &num_y, &den_y);
    let ghost s7 = system(*cs);
    let r = PointVar { x: x3, y: y3, w: pq_w };
    proof {
        lemma_fits_gate(s6, num_y@, den_y@);
        lemma_fits_larger(s6, s7, x3@);
        if p@.w is Some && q@.w is Some {
            let (pw, qw, rw) = (p@.w->Some_0, q@.w->Some_0, pq_w->Some_0@);
            let t = ed_d() * ((pw.x * qw.x) * (pw.y * qw.y));
            lemma_fp_range(pq_w->Some_0.x);
            lemma_fp_range(pq_w->Some_0.y);
            lemma_quotient(
                num_x@.w->Some_0,
                den_x@.w->Some_0,
                pw.x * qw.y + pw.y * qw.x,
                1 + t,
                rw.x,
            );
            lemma_quotient(
                num_y@.w->Some_0,
                den_y@.w->Some_0,
                pw.y * qw.y - ed_a() * (pw.x * qw.x),
                1 - t,
                rw.y,
            );
        }
        if good(s0) && point_right(s0, p@) && point_right(s0, q@) {
            lemma_var_fractions_right(s0, p@, q@);
            lemma_div_honest(s5, num_x@, den_x@);
            lemma_extends_right(s5, s6, num_y@);
            lemma_extends_right(s5, s6, den_y@);
            lemma_div_honest(s6, num_y@, den_y@);
            lemma_extends_right(s6, s7, x3@);
            lemma_extends_trans(s0, s5, s6);
            lemma_extends_trans(s0, s6, s7);
        }
    }
    r
}

/// What [`on_curve`] makes of a system.
pub open spec fn on_curve_system(sys: System, p: Point) -> System {
    let s1 = mul_system(sys, p.x, p.x);
    let s2 = mul_system(s1, p.y, p.y);
    let (xx, yy) = (mul_out(sys, p.x, p.x), mul_out(s1, p.y, p.y));
    let s3 = mul_system(s2, xx, yy);
    let xxyy = mul_out(s2, xx, yy);
    constrained(
        s3,
        lc_add_term(
            lc_mul(xx.lc, ed_a()) + yy.lc + lc_neg(lc_mul(xxyy.lc, ed_d())),
            Variable::One,
            minus_one(),
        ),
    )
}

/// Constrains a point to be on Jubjub: `a·x² + y² = 1 + d·x²·y²`. 3 gates.
pub fn on_curve<CS: ConstraintSystem>(cs: &mut CS, p: &PointVar)
    requires
        old(cs).well_formed(),
        old(cs).circuit().n_mul + 3 <= usize::MAX,
        fits(system(*old(cs)), p@.x),
        fits(system(*old(cs)), p@.y),
    ensures
        built(*old(cs), *final(cs), on_curve_system(system(*old(cs)), p@)),
        good(system(*old(cs))) && point_right(system(*old(cs)), p@) && (old(cs).values() is Some
            ==> gin_on_curve(GinPoint { x: p@.x.w->Some_0, y: p@.y.w->Some_0 })) ==> {
            &&& good(system(*final(cs)))
            &&& extends(system(*old(cs)), system(*final(cs)))
        },
{
    let ghost s0 = system(*cs);
    let a = GinAffine::coeff_a();
    let d = GinAffine::coeff_d();
    let xx = mul_gate(cs, &p.x, &p.x);
    let ghost s1 = system(*cs);
    proof {
        lemma_fits_gate(s0, p@.x, p@.x);
        lemma_fits_larger(s0, s1, p@.y);
    }
    let yy = mul_gate(cs, &p.y, &p.y);
    let ghost s2 = system(*cs);
    proof {
        lemma_fits_gate(s1, p@.y, p@.y);
        lemma_fits_larger(s1, s2, xx@);
    }
    let xxyy = mul_gate(cs, &xx, &yy);
    let ghost s3 = system(*cs);
    proof {
        lemma_fits_gate(s2, xx@, yy@);
        lemma_fits_larger(s2, s3, xx@);
        lemma_fits_larger(s2, s3, yy@);
        crate::zk::r1cs::lemma_minus_one();
        lemma_fits_ops(s3, xx@, xxyy@);
        lemma_fits_ops(s3, s_scale(xx@, ed_a()), yy@);
        lemma_fits_ops(s3, s_add(s_scale(xx@, ed_a()), yy@), s_scale(xxyy@, ed_d()));
        lemma_fits_scaled(
            s3,
            s_sub(s_add(s_scale(xx@, ed_a()), yy@), s_scale(xxyy@, ed_d())),
            minus_one(),
        );
    }
    let lc = xx.lc.scaled(a).plus(yy.lc).plus(xxyy.lc.scaled(d).negate());
    cs.constrain(lc - Fp::one());
    proof {
        if good(s0) && point_right(s0, p@) && (s0.w is Some ==> gin_on_curve(
            GinPoint { x: p@.x.w->Some_0, y: p@.y.w->Some_0 },
        )) {
            lemma_on_curve_honest(s0, p@);
        }
    }
}

/// What [`assert_eq_point`] makes of a system.
pub open spec fn eq_point_system(sys: System, p: Point, q: GinPoint) -> System {
    constrained(
        constrained(sys, lc_add_term(p.x.lc, Variable::One, (-q.x) % fp_order())),
        lc_add_term(p.y.lc, Variable::One, (-q.y) % fp_order()),
    )
}

/// Constrains `p == q`, coordinate by coordinate.
pub fn assert_eq_point<CS: ConstraintSystem>(cs: &mut CS, p: &PointVar, q: &GinAffine)
    requires
        old(cs).well_formed(),
        fits(system(*old(cs)), p@.x),
        fits(system(*old(cs)), p@.y),
    ensures
        built(*old(cs), *final(cs), eq_point_system(system(*old(cs)), p@, q@)),
        good(system(*old(cs))) && point_right(system(*old(cs)), p@) && (old(cs).values() is Some
            ==> p@.x.w == Some(q@.x) && p@.y.w == Some(q@.y)) ==> {
            &&& good(system(*final(cs)))
            &&& extends(system(*old(cs)), system(*final(cs)))
        },
{
    let ghost s0 = system(*cs);
    proof {
        lemma_fits_scaled(system(*cs), p@.x, (-q@.x) % fp_order());
        lemma_fits_scaled(system(*cs), p@.y, (-q@.y) % fp_order());
    }
    cs.constrain(p.x.lc.clone() - q.x);
    cs.constrain(p.y.lc.clone() - q.y);
    proof {
        if good(s0) && point_right(s0, p@) && (s0.w is Some ==> p@.x.w == Some(q@.x) && p@.y.w
            == Some(q@.y)) {
            lemma_eq_point_honest(s0, p@, q@);
        }
    }
}

// ─── bits ───────────────────────────────────────────────────────────────────

/// A bit as a number.
pub open spec fn bit_value(b: bool) -> int {
    if b {
        1
    } else {
        0
    }
}

/// Decomposes an `F_p` element into `n_bits` bits, least significant first.
pub fn fp_to_bits_le(v: &Fp, n_bits: usize) -> (r: Vec<bool>)
    ensures
        r@.len() == n_bits,
        forall|i: int| 0 <= i < n_bits ==> #[trigger] r@[i] == bit(v@, i as nat),
{
    let mut out: Vec<bool> = Vec::with_capacity(n_bits);
    let mut i: usize = 0;
    while i < n_bits
        invariant
            i <= n_bits,
            out@.len() == i,
            forall|k: int| 0 <= k < i ==> #[trigger] out@[k] == bit(v@, k as nat),
        decreases n_bits - i,
    {
        out.push(v.bit(i));
        i = i + 1;
    }
    out
}

/// Decomposes an `F_s` element into `n_bits` bits, least significant first.
pub fn fs_to_bits_le(v: &Fs, n_bits: usize) -> (r: Vec<bool>)
    ensures
        r@.len() == n_bits,
        forall|i: int| 0 <= i < n_bits ==> #[trigger] r@[i] == bit(v@, i as nat),
{
    let mut out: Vec<bool> = Vec::with_capacity(n_bits);
    let mut i: usize = 0;
    while i < n_bits
        invariant
            i <= n_bits,
            out@.len() == i,
            forall|k: int| 0 <= k < i ==> #[trigger] out@[k] == bit(v@, k as nat),
        decreases n_bits - i,
    {
        out.push(v.bit(i));
        i = i + 1;
    }
    out
}

/// A gate with the inputs `b` and `1 − b` and the output zero.
pub open spec fn bit_system(sys: System, b: Option<bool>) -> System {
    let g = next_gate(sys.c);
    let (l, r) = match b {
        Some(v) => (Some(bit_value(v)), Some(1 - bit_value(v))),
        None => (None, None),
    };
    constrained(
        constrained(
            gated(sys, l, r),
            seq![(g.0, 1int), (g.1, 1int), (Variable::One, minus_one())],
        ),
        lc_var(g.2),
    )
}

/// The bit of [`bit_system`].
pub open spec fn bit_out(sys: System, b: Option<bool>) -> Scalar {
    Scalar {
        lc: lc_var(next_gate(sys.c).0),
        w: match b {
            Some(v) => Some(bit_value(v)),
            None => None,
        },
    }
}

/// Allocates a wire that is zero or one: `b·(1 − b) = 0`.
pub fn bit_gate<CS: ConstraintSystem>(cs: &mut CS, b: Option<bool>) -> (r: ScalarVar)
    requires
        old(cs).well_formed(),
        old(cs).circuit().n_mul < usize::MAX,
        old(cs).values() is Some ==> b is Some,
    ensures
        built(*old(cs), *final(cs), bit_system(system(*old(cs)), b)),
        r@ == bit_out(system(*old(cs)), b),
        good(system(*old(cs))) ==> {
            &&& good(system(*final(cs)))
            &&& extends(system(*old(cs)), system(*final(cs)))
            &&& right(system(*final(cs)), r@)
        },
{
    let ghost s0 = system(*cs);
    proof {
        if good(s0) {
            lemma_bit_honest(s0, b);
        }
    }
    let w = match b {
        Some(v) => Some(Fp::from(if v {
            1u64
        } else {
            0u64
        })),
        None => None,
    };
    let assignment = match w {
        Some(bf) => Some((bf, Fp::one() - bf)),
        None => None,
    };
    proof {
        lemma_fp_order();
        lemma_mod_reduced(0, fp_order());
        lemma_mod_reduced(1, fp_order());
        crate::zk::r1cs::lemma_minus_one();
    }
    let (vl, vr, vo) = cs.allocate_multiplier(assignment).unwrap();
    let sum = LinearCombination::from(vl) + vr - Fp::one();
    proof {
        assert(sum@ =~= seq![(vl, 1int), (vr, 1int), (Variable::One, minus_one())]);
    }
    cs.constrain(sum);
    cs.constrain(LinearCombination::from(vo));
    ScalarVar { lc: LinearCombination::from(vl), w }
}

/// A system with one bit more for every element of `w`.
pub open spec fn bits_system(sys: System, w: Seq<Option<bool>>) -> System
    decreases w.len(),
{
    if w.len() == 0 {
        sys
    } else {
        bit_system(bits_system(sys, w.drop_last()), w.last())
    }
}

/// The bits of [`bits_system`].
pub open spec fn bits_out(sys: System, w: Seq<Option<bool>>) -> Seq<Scalar> {
    Seq::new(w.len(), |i: int| bit_out(bits_system(sys, w.take(i)), w[i]))
}

/// The first `n` bits of a value that only the prover knows.
pub open spec fn value_bits(v: Option<int>, n: nat) -> Seq<Option<bool>> {
    Seq::new(
        n,
        |i: int|
            match v {
                Some(x) => Some(bit(x, i as nat)),
                None => None,
            },
    )
}

/// The number of gates that bits take.
pub proof fn lemma_bits_system(sys: System, w: Seq<Option<bool>>)
    ensures
        bits_system(sys, w).c.n_mul == sys.c.n_mul + w.len(),
        bits_system(sys, w).c.n_committed == sys.c.n_committed,
        bits_system(sys, w).w is Some <==> sys.w is Some,
    decreases w.len(),
{
    if w.len() > 0 {
        lemma_bits_system(sys, w.drop_last());
    }
}

/// The views of a list of scalars.
pub open spec fn scalars(s: Seq<ScalarVar>) -> Seq<Scalar> {
    Seq::new(s.len(), |i: int| s[i]@)
}

/// Every scalar of the list fits.
pub open spec fn all_fit(sys: System, s: Seq<Scalar>) -> bool {
    forall|i: int| 0 <= i < s.len() ==> fits(sys, #[trigger] s[i])
}

/// Allocates a bit for every element of `w`.
pub fn bit_gates<CS: ConstraintSystem>(cs: &mut CS, w: &[Option<bool>]) -> (r: Vec<ScalarVar>)
    requires
        old(cs).well_formed(),
        old(cs).circuit().n_mul + w@.len() <= usize::MAX,
        old(cs).values() is Some ==> forall|i: int| 0 <= i < w@.len() ==> #[trigger] w@[i] is Some,
    ensures
        built(*old(cs), *final(cs), bits_system(system(*old(cs)), w@)),
        scalars(r@) == bits_out(system(*old(cs)), w@),
        all_fit(system(*final(cs)), scalars(r@)),
        good(system(*old(cs))) ==> {
            &&& good(system(*final(cs)))
            &&& extends(system(*old(cs)), system(*final(cs)))
            &&& all_right(system(*final(cs)), scalars(r@))
        },
{
    let ghost cs0 = *cs;
    let ghost s0 = system(*cs);
    let mut out: Vec<ScalarVar> = Vec::with_capacity(w.len());
    let mut i: usize = 0;
    proof {
        assert(w@.take(0) =~= Seq::<Option<bool>>::empty());
    }
    while i < w.len()
        invariant
            i <= w@.len(),
            s0 == system(cs0),
            built(cs0, *cs, bits_system(s0, w@.take(i as int))),
            s0.c.n_mul + w@.len() <= usize::MAX,
            s0.w is Some ==> forall|k: int| 0 <= k < w@.len() ==> #[trigger] w@[k] is Some,
            out@.len() == i,
            forall|k: int|
                0 <= k < i ==> (#[trigger] out@[k])@ == bit_out(
                    bits_system(s0, w@.take(k)),
                    w@[k],
                ),
        decreases w@.len() - i,
    {
        proof {
            lemma_bits_system(s0, w@.take(i as int));
        }
        let b = bit_gate(cs, w[i]);
        out.push(b);
        proof {
            assert(w@.take(i + 1).drop_last() =~= w@.take(i as int));
            assert(w@.take(i + 1).last() == w@[i as int]);
        }
        i = i + 1;
    }
    proof {
        assert(w@.take(i as int) =~= w@);
        assert(scalars(out@) =~= bits_out(s0, w@));
        if good(s0) {
            lemma_bits_honest(s0, w@);
            assert forall|k: int| 0 <= k < scalars(out@).len() implies right(
                system(*cs),
                #[trigger] scalars(out@)[k],
            ) by {
                assert(right(bits_system(s0, w@), bits_out(s0, w@)[k]));
            }
        }
        lemma_bits_system(s0, w@);
        assert forall|k: int| 0 <= k < out@.len() implies fits(
            system(*cs),
            #[trigger] scalars(out@)[k],
        ) by {
            lemma_bits_system(s0, w@.take(k));
        }
    }
    out
}

/// `∑ 2^i · b_i` over the left wires of `n` gates from gate `g` on.
pub open spec fn bits_lc(g: nat, n: nat) -> Lc
    decreases n,
{
    if n == 0 {
        Seq::empty()
    } else {
        lc_add_term(
            bits_lc(g, (n - 1) as nat),
            Variable::MultiplierLeft((g + n - 1) as usize),
            (pow2((n - 1) as nat) as int) % fp_order(),
        )
    }
}

/// What [`bit_decompose`] makes of a system.
pub open spec fn decompose_system(sys: System, value: Scalar, n: nat) -> System {
    constrained(
        bits_system(sys, value_bits(value.w, n)),
        bits_lc(sys.c.n_mul, n) + lc_neg(value.lc),
    )
}

/// The bits of [`bit_decompose`].
pub open spec fn decompose_out(sys: System, value: Scalar, n: nat) -> Seq<Scalar> {
    bits_out(sys, value_bits(value.w, n))
}

pub proof fn lemma_bits_lc_in(g: nat, n: nat, m: nat)
    requires
        g + n <= usize::MAX,
    ensures
        lc_in(bits_lc(g, n), g + n, m),
    decreases n,
{
    if n > 0 {
        lemma_bits_lc_in(g, (n - 1) as nat, m);
        let lc = bits_lc(g, (n - 1) as nat);
        lemma_lc_in_push(
            lc,
            Variable::MultiplierLeft((g + n - 1) as usize),
            (pow2((n - 1) as nat) as int) % fp_order(),
            (g + n - 1) as nat,
            g + n,
            m,
        );
    }
}

/// Decomposes a scalar into `n_bits` bits, least significant first. `n_bits` gates.
/// The prover's value should be below `2^n_bits`.
pub fn bit_decompose<CS: ConstraintSystem>(cs: &mut CS, value: &ScalarVar, n_bits: usize) -> (r:
    Vec<ScalarVar>)
    requires
        old(cs).well_formed(),
        old(cs).circuit().n_mul + n_bits <= usize::MAX,
        fits(system(*old(cs)), value@),
    ensures
        built(*old(cs), *final(cs), decompose_system(system(*old(cs)), value@, n_bits as nat)),
        scalars(r@) == decompose_out(system(*old(cs)), value@, n_bits as nat),
        all_fit(system(*final(cs)), scalars(r@)),
        good(system(*old(cs))) && right(system(*old(cs)), value@) && (old(cs).values() is Some
            ==> value@.w->Some_0 < pow2(n_bits as nat)) ==> {
            &&& good(system(*final(cs)))
            &&& extends(system(*old(cs)), system(*final(cs)))
            &&& all_right(system(*final(cs)), scalars(r@))
        },
{
    let ghost s0 = system(*cs);
    let mut bits_w: Vec<Option<bool>> = Vec::with_capacity(n_bits);
    let mut sum = LinearCombination::zero();
    let mut pow = Fp::one();
    let n0 = cs.num_multipliers();
    let mut i: usize = 0;
    proof {
        vstd::arithmetic::power2::lemma_pow2(0);
        vstd::arithmetic::power::lemma_pow0(2);
        lemma_fp_order();
        lemma_mod_reduced(1, fp_order());
    }
    while i < n_bits
        invariant
            i <= n_bits,
            n0 == s0.c.n_mul,
            n0 + n_bits <= usize::MAX,
            bits_w@ == value_bits(value@.w, i as nat),
            sum@ == bits_lc(n0 as nat, i as nat),
            pow@ == (pow2(i as nat) as int) % fp_order(),
        decreases n_bits - i,
    {
        let b = match value.w {
            Some(v) => Some(v.bit(i)),
            None => None,
        };
        bits_w.push(b);
        sum.add_term(Variable::MultiplierLeft(n0 + i), pow);
        pow = pow.double();
        proof {
            assert(bits_w@ =~= value_bits(value@.w, (i + 1) as nat));
            vstd::arithmetic::power2::lemma_pow2_unfold((i + 1) as nat);
            let p = pow2(i as nat) as int;
            lemma_fp_order();
            lemma_cong_mod(p, fp_order());
            lemma_cong_mul(2, 2, p % fp_order(), p, fp_order());
        }
        i = i + 1;
    }
    let out = bit_gates(cs, bits_w.as_slice());
    let ghost s1 = system(*cs);
    let lc = sum.plus(value.lc.clone().negate());
    proof {
        lemma_bits_system(s0, bits_w@);
        lemma_bits_lc_in(n0 as nat, n_bits as nat, s0.c.n_committed);
        lemma_fits_larger(s0, s1, value@);
        let a = Scalar { lc: sum@, w: value@.w };
        lemma_fits_ops(s1, a, value@);
        assert(s_sub(a, value@).lc == lc@);
    }
    cs.constrain(lc);
    proof {
        let n = n_bits as nat;
        if good(s0) && right(s0, value@) && (s0.w is Some ==> value@.w->Some_0 < pow2(n)) {
            if value.w is Some {
                lemma_fp_range(value.w->Some_0);
            }
            lemma_decompose_honest(s0, value@, n);
            assert forall|k: int| 0 <= k < scalars(out@).len() implies right(
                system(*cs),
                #[trigger] scalars(out@)[k],
            ) by {
                assert(right(decompose_system(s0, value@, n), decompose_out(s0, value@, n)[k]));
            }
        }
    }
    out
}

/// The comparison of bits with those of `p − 1`, from the top down to bit `i`: the
/// system, and whether the bits so far are those of `p − 1`.
pub open spec fn compare_chain(sys: System, bits: Seq<Scalar>, i: nat) -> (System, Scalar)
    decreases bits.len() - i,
{
    if i >= bits.len() {
        (sys, s_const(1))
    } else {
        let (s, run) = compare_chain(sys, bits, i + 1);
        let s1 = mul_system(s, run, bits[i as int]);
        let o = mul_out(s, run, bits[i as int]);
        if bit(minus_one(), i) {
            (s1, o)
        } else {
            (constrained(s1, o.lc), run)
        }
    }
}

/// What [`bit_decompose_canonical`] makes of a system.
#[verifier::opaque]
pub open spec fn canonical_system(sys: System, value: Scalar, n: nat) -> System {
    let s = decompose_system(sys, value, n);
    if n >= 255 {
        compare_chain(s, decompose_out(sys, value, n), 0).0
    } else {
        s
    }
}

pub proof fn lemma_compare_chain(sys: System, bits: Seq<Scalar>, i: nat)
    requires
        all_fit(sys, bits),
        i <= bits.len(),
        sys.c.n_mul + (bits.len() - i) <= usize::MAX,
    ensures
        ({
            let (s, run) = compare_chain(sys, bits, i);
            &&& larger(sys, s)
            &&& s.c.n_mul == sys.c.n_mul + (bits.len() - i)
            &&& fits(s, run)
            &&& all_fit(s, bits)
        }),
    decreases bits.len() - i,
{
    if i < bits.len() {
        lemma_compare_chain(sys, bits, i + 1);
        let (s, run) = compare_chain(sys, bits, i + 1);
        assert(fits(s, bits[i as int]));
        lemma_fits_gate(s, run, bits[i as int]);
        let s2 = compare_chain(sys, bits, i).0;
        lemma_fits_larger(s, s2, run);
        assert forall|k: int| 0 <= k < bits.len() implies fits(s2, #[trigger] bits[k]) by {
            lemma_fits_larger(s, s2, bits[k]);
        }
    }
}

/// [`bit_decompose`] with the further constraint that the integer with these bits is
/// below `p`, so that it is the canonical one. A decomposition of fewer bits than
/// `p` has is canonical anyway.
pub fn bit_decompose_canonical<CS: ConstraintSystem>(
    cs: &mut CS,
    value: &ScalarVar,
    n_bits: usize,
) -> (r: Vec<ScalarVar>)
    requires
        old(cs).well_formed(),
        old(cs).circuit().n_mul + 2 * n_bits <= usize::MAX,
        fits(system(*old(cs)), value@),
    ensures
        built(*old(cs), *final(cs), canonical_system(system(*old(cs)), value@, n_bits as nat)),
        scalars(r@) == decompose_out(system(*old(cs)), value@, n_bits as nat),
        all_fit(system(*final(cs)), scalars(r@)),
        good(system(*old(cs))) && right(system(*old(cs)), value@) && (old(cs).values() is Some
            ==> value@.w->Some_0 < pow2(n_bits as nat)) ==> {
            &&& good(system(*final(cs)))
            &&& extends(system(*old(cs)), system(*final(cs)))
            &&& all_right(system(*final(cs)), scalars(r@))
        },
{
    let ghost cs0 = *cs;
    let ghost s0 = system(*cs);
    reveal(canonical_system);
    let bits = bit_decompose(cs, value, n_bits);
    if n_bits < 255 {
        return bits;
    }
    let ghost s1 = system(*cs);
    let ghost bs = scalars(bits@);
    proof {
        lemma_bits_system(s0, value_bits(value@.w, n_bits as nat));
        lemma_compare_chain(s1, bs, n_bits as nat);
        lemma_fp_order();
        crate::zk::r1cs::lemma_minus_one();
    }
    let top = Fp::zero() - Fp::one();
    let mut run = ScalarVar::constant(Fp::one());
    let mut i: usize = n_bits;
    while i > 0
        invariant
            i <= n_bits,
            bs == scalars(bits@),
            bs.len() == n_bits,
            all_fit(s1, bs),
            s1.c.n_mul + n_bits <= usize::MAX,
            top@ == minus_one(),
            built(cs0, *cs, compare_chain(s1, bs, i as nat).0),
            run@ == compare_chain(s1, bs, i as nat).1,
        decreases i,
    {
        proof {
            lemma_compare_chain(s1, bs, i as nat);
            assert(bs[i - 1] == bits@[i - 1]@);
        }
        i = i - 1;
        let o = mul_gate(cs, &run, &bits[i]);
        if top.bit(i) {
            run = o;
        } else {
            proof {
                lemma_fits_gate(compare_chain(s1, bs, (i + 1) as nat).0, run@, bs[i as int]);
            }
            cs.constrain(o.lc);
        }
    }
    proof {
        let n = n_bits as nat;
        lemma_compare_chain(s1, bs, 0);
        if good(s0) && right(s0, value@) && (s0.w is Some ==> value@.w->Some_0 < pow2(n)) {
            if value.w is Some {
                lemma_fp_range(value.w->Some_0);
            }
            lemma_canonical_honest(s0, value@, n);
            assert forall|k: int| 0 <= k < bs.len() implies right(
                system(*cs),
                #[trigger] bs[k],
            ) by {
                assert(right(canonical_system(s0, value@, n), decompose_out(s0, value@, n)[k]));
            }
        }
    }
    bits
}

// ─── scalar multiplication ──────────────────────────────────────────────────

/// What [`cond_select`] gives.
pub open spec fn select_out(sys: System, b: Scalar, a: Scalar, c: Scalar) -> Scalar {
    s_add(c, mul_out(sys, b, s_sub(a, c)))
}

/// `c + b·(a − c)`: `a` for `b = 1` and `c` for `b = 0`. 1 gate.
fn cond_select<CS: ConstraintSystem>(cs: &mut CS, b: &ScalarVar, a: &ScalarVar, c: &ScalarVar) -> (r:
    ScalarVar)
    requires
        old(cs).well_formed(),
        old(cs).circuit().n_mul < usize::MAX,
        fits(system(*old(cs)), b@),
        fits(system(*old(cs)), a@),
        fits(system(*old(cs)), c@),
    ensures
        built(*old(cs), *final(cs), mul_system(system(*old(cs)), b@, s_sub(a@, c@))),
        r@ == select_out(system(*old(cs)), b@, a@, c@),
        fits(system(*final(cs)), r@),
{
    let ghost s0 = system(*cs);
    let diff = a.sub(c);
    proof {
        lemma_fits_ops(s0, a@, c@);
    }
    let prod = mul_gate(cs, b, &diff);
    let r = c.add(&prod);
    proof {
        let s1 = system(*cs);
        lemma_fits_gate(s0, b@, diff@);
        lemma_fits_larger(s0, s1, c@);
        lemma_fits_ops(s1, c@, prod@);
    }
    r
}

/// The entry of a table of four constants that the bits `b0` and `b1` choose, with
/// `b01` the product of the bits.
pub open spec fn choose4(b0: Scalar, b1: Scalar, b01: Scalar, t: Seq<int>) -> Scalar {
    let p = fp_order();
    s_shift(
        s_add(
            s_add(s_scale(b0, (t[1] - t[0]) % p), s_scale(b1, (t[2] - t[0]) % p)),
            s_scale(b01, (t[3] - t[2] - t[1] + t[0]) % p),
        ),
        t[0],
    )
}

fn choose4_of(b0: &ScalarVar, b1: &ScalarVar, b01: &ScalarVar, t0: Fp, t1: Fp, t2: Fp, t3: Fp) -> (r:
    ScalarVar)
    ensures
        r@ == choose4(b0@, b1@, b01@, seq![t0@, t1@, t2@, t3@]),
{
    let e1 = t3 - t2;
    let e2 = e1 - t1;
    let e3 = e2 + t0;
    proof {
        let m = fp_order();
        lemma_fp_order();
        lemma_cong_mod(t3@ - t2@, m);
        lemma_cong_sub(e1@, t3@ - t2@, t1@, t1@, m);
        lemma_cong_mod(e1@ - t1@, m);
        lemma_cong_add(e2@, t3@ - t2@ - t1@, t0@, t0@, m);
    }
    b0.scale(t1 - t0).add(&b1.scale(t2 - t0)).add(&b01.scale(e3)).shift(t0)
}

/// The value is zero or one, where it is known.
pub open spec fn is_bit(b: Scalar) -> bool {
    b.w matches Some(v) ==> v == 0 || v == 1
}

/// The entry that two bits choose.
proof fn lemma_choose4(b0: Scalar, b1: Scalar, b01: Scalar, t: Seq<int>)
    requires
        t.len() == 4,
        forall|i: int| 0 <= i < 4 ==> 0 <= #[trigger] t[i] < fp_order(),
        is_bit(b0),
        is_bit(b1),
        b01.w == both(b0.w, b1.w, |x: int, y: int| (x * y) % fp_order()),
    ensures
        choose4(b0, b1, b01, t).w == (match (b0.w, b1.w) {
            (Some(x), Some(y)) => Some(t[x + 2 * y]),
            _ => None,
        }),
{
    if b0.w is Some && b1.w is Some {
        let m = fp_order();
        lemma_fp_order();
        let (x, y) = (b0.w->Some_0, b1.w->Some_0);
        let (t0, t1, t2, t3) = (t[0], t[1], t[2], t[3]);
        let xy = (x * y) % m;
        assert(xy == x * y && (xy == 0 || xy == 1)) by {
            assert((x == 0 || x == 1) && (y == 0 || y == 1) ==> x * y == 0 || x * y == 1)
                by (nonlinear_arith);
            lemma_mod_reduced(x * y, m);
        }
        let (c1, c2, c3) = (t1 - t0, t2 - t0, t3 - t2 - t1 + t0);
        lemma_term(x, c1);
        lemma_term(y, c2);
        lemma_term(xy, c3);
        let (e1, e2, e3) = ((x * (c1 % m)) % m, (y * (c2 % m)) % m, (xy * (c3 % m)) % m);
        lemma_cong_add(e1, x * c1, e2, y * c2, m);
        lemma_cong_mod(e1 + e2, m);
        lemma_cong_add((e1 + e2) % m, x * c1 + y * c2, e3, xy * c3, m);
        lemma_cong_mod((e1 + e2) % m + e3, m);
        lemma_cong_add(((e1 + e2) % m + e3) % m, x * c1 + y * c2 + xy * c3, t0, t0, m);
        let r = x * c1 + y * c2 + xy * c3 + t0;
        assert(r == t[x + 2 * y]) by {
            assert(0 * c1 == 0 && 1 * c1 == c1);
            assert(0 * c2 == 0 && 1 * c2 == c2);
            assert(0 * c3 == 0 && 1 * c3 == c3);
            assert(0 * y == 0 && 1 * y == y);
        }
        lemma_mod_reduced(t[x + 2 * y], m);
    }
}

proof fn lemma_term(x: int, c: int)
    ensures
        cong((x * (c % fp_order())) % fp_order(), x * c, fp_order()),
{
    let m = fp_order();
    lemma_fp_order();
    lemma_cong_mod(c, m);
    lemma_cong_mul(x, x, c % m, c, m);
    lemma_cong_mod(x * (c % m), m);
}

/// The x-coordinates of a table.
pub open spec fn xs(t: Seq<GinPoint>) -> Seq<int> {
    Seq::new(t.len(), |i: int| t[i].x)
}

/// The y-coordinates of a table.
pub open spec fn ys(t: Seq<GinPoint>) -> Seq<int> {
    Seq::new(t.len(), |i: int| t[i].y)
}

/// The two halves of a table of eight constants, each with its entry chosen by two
/// bits.
pub open spec fn halves(sys: System, b0: Scalar, b1: Scalar, t: Seq<int>) -> (Scalar, Scalar) {
    let b01 = mul_out(sys, b0, b1);
    (
        choose4(b0, b1, b01, seq![t[0], t[1], t[2], t[3]]),
        choose4(b0, b1, b01, seq![t[4], t[5], t[6], t[7]]),
    )
}

/// What [`window_point`] makes of a system.
pub open spec fn window_system(
    sys: System,
    b0: Scalar,
    b1: Scalar,
    b2: Scalar,
    t: Seq<GinPoint>,
) -> System {
    let s1 = mul_system(sys, b0, b1);
    let (xl, xh) = halves(sys, b0, b1, xs(t));
    let s2 = mul_system(s1, b2, s_sub(xh, xl));
    let (yl, yh) = halves(sys, b0, b1, ys(t));
    mul_system(s2, b2, s_sub(yh, yl))
}

/// The point that [`window_point`] gives.
pub open spec fn window_out(
    sys: System,
    b0: Scalar,
    b1: Scalar,
    b2: Scalar,
    t: Seq<GinPoint>,
) -> Point {
    let s1 = mul_system(sys, b0, b1);
    let (xl, xh) = halves(sys, b0, b1, xs(t));
    let s2 = mul_system(s1, b2, s_sub(xh, xl));
    let (yl, yh) = halves(sys, b0, b1, ys(t));
    Point {
        x: select_out(s1, b2, xh, xl),
        y: select_out(s2, b2, yh, yl),
        w: match (b0.w, b1.w, b2.w) {
            (Some(x), Some(y), Some(z)) => Some(t[x + 2 * y + 4 * z]),
            _ => None,
        },
    }
}

/// Selecting by a known bit.
proof fn lemma_select(sys: System, b: Scalar, a: Scalar, c: Scalar)
    requires
        is_bit(b),
        a.w matches Some(x) ==> 0 <= x < fp_order(),
        c.w matches Some(x) ==> 0 <= x < fp_order(),
    ensures
        select_out(sys, b, a, c).w == (match (b.w, a.w, c.w) {
            (Some(v), Some(x), Some(y)) => Some(if v == 1 {
                x
            } else {
                y
            }),
            _ => None,
        }),
{
    if b.w is Some && a.w is Some && c.w is Some {
        let m = fp_order();
        lemma_fp_order();
        let (v, x, y) = (b.w->Some_0, a.w->Some_0, c.w->Some_0);
        lemma_term(v, x - y);
        let e = (v * ((x - y) % m)) % m;
        lemma_cong_add(y, y, e, v * (x - y), m);
        let d = x - y;
        assert(0 * d == 0 && 1 * d == d);
        lemma_mod_reduced(x, m);
        lemma_mod_reduced(y, m);
    }
}

/// The points of a list.
pub open spec fn gins(s: Seq<GinAffine>) -> Seq<GinPoint> {
    Seq::new(s.len(), |i: int| s[i]@)
}

proof fn lemma_halves(sys: System, b0: Scalar, b1: Scalar, t: Seq<int>)
    requires
        sys.c.n_mul < usize::MAX,
        t.len() == 8,
        forall|i: int| 0 <= i < 8 ==> 0 <= #[trigger] t[i] < fp_order(),
        fits(sys, b0),
        fits(sys, b1),
        is_bit(b0),
        is_bit(b1),
    ensures
        ({
            let (lo, hi) = halves(sys, b0, b1, t);
            let s1 = mul_system(sys, b0, b1);
            &&& fits(s1, lo)
            &&& fits(s1, hi)
            &&& lo.w == (match (b0.w, b1.w) {
                (Some(x), Some(y)) => Some(t[x + 2 * y]),
                _ => None,
            })
            &&& hi.w == (match (b0.w, b1.w) {
                (Some(x), Some(y)) => Some(t[x + 2 * y + 4]),
                _ => None,
            })
        }),
{
    let b01 = mul_out(sys, b0, b1);
    let s1 = mul_system(sys, b0, b1);
    lemma_fits_gate(sys, b0, b1);
    lemma_fits_larger(sys, s1, b0);
    lemma_fits_larger(sys, s1, b1);
    let (t1, t2) = (seq![t[0], t[1], t[2], t[3]], seq![t[4], t[5], t[6], t[7]]);
    lemma_choose4(b0, b1, b01, t1);
    lemma_choose4(b0, b1, b01, t2);
    lemma_choose4_fits(s1, b0, b1, b01, t1);
    lemma_choose4_fits(s1, b0, b1, b01, t2);
}

proof fn lemma_choose4_fits(sys: System, b0: Scalar, b1: Scalar, b01: Scalar, t: Seq<int>)
    requires
        fits(sys, b0),
        fits(sys, b1),
        fits(sys, b01),
    ensures
        fits(sys, choose4(b0, b1, b01, t)),
{
    let p = fp_order();
    let (c1, c2, c3) = (
        (t[1] - t[0]) % p,
        (t[2] - t[0]) % p,
        (t[3] - t[2] - t[1] + t[0]) % p,
    );
    lemma_fits_scaled(sys, b0, c1);
    lemma_fits_scaled(sys, b1, c2);
    lemma_fits_scaled(sys, b01, c3);
    let e = s_add(s_scale(b0, c1), s_scale(b1, c2));
    lemma_fits_ops(sys, s_scale(b0, c1), s_scale(b1, c2));
    lemma_fits_ops(sys, e, s_scale(b01, c3));
    lemma_fits_scaled(sys, s_add(e, s_scale(b01, c3)), t[0]);
}

/// The entry of a table of eight points that three bits choose. 3 gates.
fn window_point<CS: ConstraintSystem>(
    cs: &mut CS,
    b0: &ScalarVar,
    b1: &ScalarVar,
    b2: &ScalarVar,
    table: &[GinAffine],
) -> (r: PointVar)
    requires
        old(cs).well_formed(),
        old(cs).circuit().n_mul + 3 <= usize::MAX,
        fits(system(*old(cs)), b0@),
        fits(system(*old(cs)), b1@),
        fits(system(*old(cs)), b2@),
        is_bit(b0@),
        is_bit(b1@),
        is_bit(b2@),
        table@.len() == 8,
    ensures
        built(
            *old(cs),
            *final(cs),
            window_system(system(*old(cs)), b0@, b1@, b2@, gins(table@)),
        ),
        r@ == window_out(system(*old(cs)), b0@, b1@, b2@, gins(table@)),
        point_fits(system(*final(cs)), r@),
{
    let ghost s0 = system(*cs);
    let ghost t = gins(table@);
    let b01 = mul_gate(cs, b0, b1);
    let ghost s1 = system(*cs);
    let xl = choose4_of(b0, b1, &b01, table[0].x, table[1].x, table[2].x, table[3].x);
    let xh = choose4_of(b0, b1, &b01, table[4].x, table[5].x, table[6].x, table[7].x);
    let yl = choose4_of(b0, b1, &b01, table[0].y, table[1].y, table[2].y, table[3].y);
    let yh = choose4_of(b0, b1, &b01, table[4].y, table[5].y, table[6].y, table[7].y);
    proof {
        assert forall|i: int| 0 <= i < 8 implies 0 <= #[trigger] xs(t)[i] < fp_order() by {
            lemma_fp_range(table@[i].x);
        }
        assert forall|i: int| 0 <= i < 8 implies 0 <= #[trigger] ys(t)[i] < fp_order() by {
            lemma_fp_range(table@[i].y);
        }
        lemma_halves(s0, b0@, b1@, xs(t));
        lemma_halves(s0, b0@, b1@, ys(t));
        assert((xl@, xh@) == halves(s0, b0@, b1@, xs(t)));
        assert((yl@, yh@) == halves(s0, b0@, b1@, ys(t)));
        lemma_fits_gate(s0, b0@, b1@);
        lemma_fits_larger(s0, s1, b2@);
    }
    let x = cond_select(cs, b2, &xh, &xl);
    let ghost s2 = system(*cs);
    proof {
        lemma_fits_ops(s1, xh@, xl@);
        lemma_fits_gate(s1, b2@, s_sub(xh@, xl@));
        lemma_fits_larger(s1, s2, b2@);
        lemma_fits_larger(s1, s2, yl@);
        lemma_fits_larger(s1, s2, yh@);
    }
    let y = cond_select(cs, b2, &yh, &yl);
    let ghost s3 = system(*cs);
    let w = match (b0.w, b1.w, b2.w) {
        (Some(u0), Some(u1), Some(u2)) => {
            let i0: usize = if u0.is_zero() {
                0
            } else {
                1
            };
            let i1: usize = if u1.is_zero() {
                0
            } else {
                2
            };
            let i2: usize = if u2.is_zero() {
                0
            } else {
                4
            };
            Some(table[i0 + i1 + i2])
        },
        _ => None,
    };
    let r = PointVar { x, y, w };
    proof {
        lemma_fits_ops(s2, yh@, yl@);
        lemma_fits_gate(s2, b2@, s_sub(yh@, yl@));
        lemma_fits_larger(s2, s3, x@);
        lemma_select(s1, b2@, xh@, xl@);
        lemma_select(s2, b2@, yh@, yl@);
        if b0@.w is Some && b1@.w is Some && b2@.w is Some {
            let k = b0@.w->Some_0 + 2 * b1@.w->Some_0 + 4 * b2@.w->Some_0;
            assert(0 <= k < 8);
            assert(t[k] == table@[k]@);
            assert(xs(t)[k] == t[k].x && ys(t)[k] == t[k].y);
        }
    }
    r
}

/// `0, q, 2q, …, 7q`, in the way in which they are computed.
pub open spec fn multiples(q: GinPoint) -> Seq<GinPoint> {
    let q2 = gin_double(q);
    let q3 = gin_sum(q2, q);
    let q4 = gin_double(q2);
    let q5 = gin_sum(q4, q);
    let q6 = gin_sum(q4, q2);
    seq![gin_identity(), q, q2, q3, q4, q5, q6, gin_sum(q6, q)]
}

/// `8^i · base`.
pub open spec fn window_base(base: GinPoint, i: nat) -> GinPoint
    decreases i,
{
    if i == 0 {
        base
    } else {
        gin_double(gin_double(gin_double(window_base(base, (i - 1) as nat))))
    }
}

/// `p` is in the prime-order subgroup, with the exponent `e`.
pub open spec fn gin_exponent(p: GinPoint, e: int) -> bool {
    gin_in_group(p) && cong(gin_log(p), e, fs_order())
}

proof fn lemma_sum_exponent(p: GinPoint, q: GinPoint, r: GinPoint, a: int, b: int)
    requires
        gin_exponent(p, a),
        gin_exponent(q, b),
        gin_is_pow(r, (gin_log(p) + gin_log(q)) % fs_order()),
    ensures
        gin_exponent(r, a + b),
{
    let m = fs_order();
    lemma_fs_order();
    lemma_gin_log(r, (gin_log(p) + gin_log(q)) % m);
    lemma_cong_mod(gin_log(p) + gin_log(q), m);
    lemma_cong_add(gin_log(p), a, gin_log(q), b, m);
}

proof fn lemma_double_exponent(p: GinPoint, r: GinPoint, a: int)
    requires
        gin_exponent(p, a),
        gin_is_pow(r, (2 * gin_log(p)) % fs_order()),
    ensures
        gin_exponent(r, 2 * a),
{
    let m = fs_order();
    lemma_fs_order();
    lemma_gin_log(r, (2 * gin_log(p)) % m);
    lemma_cong_mod(2 * gin_log(p), m);
    lemma_cong_mul(2, 2, gin_log(p), a, m);
}

/// Whether the multiples of `q` up to `8q` have coordinates: those of a point of the curve do.
pub open spec fn window_usable(q: GinPoint) -> bool {
    let q2 = gin_double(q);
    let q4 = gin_double(q2);
    gin_on_curve(q) || {
        &&& double_defined(q)
        &&& sum_defined(q2, q)
        &&& double_defined(q2)
        &&& sum_defined(q4, q)
        &&& sum_defined(q4, q2)
        &&& sum_defined(gin_sum(q4, q2), q)
        &&& double_defined(q4)
    }
}

/// Whether the tables for `n` windows of a base can be computed.
pub open spec fn base_usable(base: GinPoint, n: nat) -> bool {
    gin_on_curve(base) || forall|k: nat| k < n ==> window_usable(#[trigger] window_base(base, k))
}

/// The multiples of a point.
pub fn multiples_of(q: &GinAffine) -> (r: Vec<GinAffine>)
    requires
        window_usable(q@),
    ensures
        r@.len() == 8,
        gins(r@) == multiples(q@),
        gin_on_curve(q@) ==> forall|i: int| 0 <= i < 8 ==> gin_on_curve((#[trigger] r@[i])@),
        gin_in_group(q@) ==> forall|i: int|
            0 <= i < 8 ==> gin_exponent((#[trigger] r@[i])@, i * gin_log(q@)),
{
    let q0 = GinAffine::zero();
    let q2 = q.double();
    let q3 = q2.plus(q);
    let q4 = q2.double();
    let q5 = q4.plus(q);
    let q6 = q4.plus(&q2);
    let q7 = q6.plus(q);
    let mut out: Vec<GinAffine> = Vec::new();
    out.push(q0);
    out.push(*q);
    out.push(q2);
    out.push(q3);
    out.push(q4);
    out.push(q5);
    out.push(q6);
    out.push(q7);
    proof {
        assert(gins(out@) =~= multiples(q@));
        if gin_in_group(q@) {
            let l = gin_log(q@);
            assert(gin_exponent(q@, l));
            lemma_gin_log(q0@, 0);
            assert(gin_exponent(q0@, 0));
            lemma_double_exponent(q@, q2@, l);
            lemma_sum_exponent(q2@, q@, q3@, 2 * l, l);
            lemma_double_exponent(q2@, q4@, 2 * l);
            lemma_sum_exponent(q4@, q@, q5@, 4 * l, l);
            lemma_sum_exponent(q4@, q2@, q6@, 4 * l, 2 * l);
            lemma_sum_exponent(q6@, q@, q7@, 6 * l, l);
            assert forall|i: int| 0 <= i < 8 implies gin_exponent(
                (#[trigger] out@[i])@,
                i * gin_log(q@),
            ) by {
                assert(0 * l == 0 && 1 * l == l);
                assert(i == 0 || i == 1 || i == 2 || i == 3 || i == 4 || i == 5 || i == 6 || i
                    == 7);
            }
        }
    }
    out
}

/// Bit `i`; the constant zero behind the end.
pub open spec fn bit_or_zero(bits: Seq<Scalar>, i: nat) -> Scalar {
    if i < bits.len() {
        bits[i as int]
    } else {
        s_const(0)
    }
}

/// What adding the multiple of `q` that three bits give makes of a system.
pub open spec fn step_system(
    sys: System,
    acc: Point,
    b0: Scalar,
    b1: Scalar,
    b2: Scalar,
    q: GinPoint,
) -> System {
    let t = multiples(q);
    add_var_system(window_system(sys, b0, b1, b2, t), acc, window_out(sys, b0, b1, b2, t))
}

/// The sum then.
pub open spec fn step_out(
    sys: System,
    acc: Point,
    b0: Scalar,
    b1: Scalar,
    b2: Scalar,
    q: GinPoint,
) -> Point {
    let t = multiples(q);
    add_var_out(window_system(sys, b0, b1, b2, t), acc, window_out(sys, b0, b1, b2, t))
}

/// The accumulator of [`scalar_mul_const`] after `i` windows, and the system then.
pub open spec fn windows(
    sys: System,
    bits: Seq<Scalar>,
    base: GinPoint,
    offset: GinPoint,
    i: nat,
) -> (System, Point)
    decreases i,
{
    if i == 0 {
        (sys, p_const(offset))
    } else {
        let k = (i - 1) as nat;
        let (s, acc) = windows(sys, bits, base, offset, k);
        let (b0, b1, b2) = (
            bit_or_zero(bits, 3 * k),
            bit_or_zero(bits, 3 * k + 1),
            bit_or_zero(bits, 3 * k + 2),
        );
        let q = window_base(base, k);
        (step_system(s, acc, b0, b1, b2, q), step_out(s, acc, b0, b1, b2, q))
    }
}

/// `⌈n / 3⌉`.
pub open spec fn window_count(n: nat) -> nat {
    (n + 2) / 3
}

/// What [`scalar_mul_const`] makes of a system.
#[verifier::opaque]
pub open spec fn scalar_mul_system(
    sys: System,
    bits: Seq<Scalar>,
    base: GinPoint,
    offset: GinPoint,
) -> System {
    let (s, acc) = windows(sys, bits, base, offset, window_count(bits.len()));
    add_const_system(s, acc, gin_neg(offset))
}

/// The point that [`scalar_mul_const`] gives.
#[verifier::opaque]
pub open spec fn scalar_mul_out(
    sys: System,
    bits: Seq<Scalar>,
    base: GinPoint,
    offset: GinPoint,
) -> Point {
    let (s, acc) = windows(sys, bits, base, offset, window_count(bits.len()));
    add_const_out(s, acc, gin_neg(offset))
}

/// `∑_{j<i} 2^j · b_j`, where the bits are known.
pub open spec fn bits_value(bits: Seq<Scalar>, i: nat) -> int
    decreases i,
{
    if i == 0 {
        0
    } else {
        bits_value(bits, (i - 1) as nat) + pow2((i - 1) as nat) * bit_or_zero(
            bits,
            (i - 1) as nat,
        ).w->Some_0
    }
}

/// Every bit is zero or one, where it is known.
pub open spec fn are_bits(bits: Seq<Scalar>) -> bool {
    forall|i: int| 0 <= i < bits.len() ==> is_bit(#[trigger] bits[i])
}

/// Every bit is known.
pub open spec fn all_known(bits: Seq<Scalar>) -> bool {
    forall|i: int| 0 <= i < bits.len() ==> (#[trigger] bits[i]).w is Some
}

/// Zeros behind the end add nothing.
pub proof fn lemma_bits_value_end(bits: Seq<Scalar>, i: nat)
    requires
        i >= bits.len(),
    ensures
        bits_value(bits, i) == bits_value(bits, bits.len()),
    decreases i,
{
    if i > bits.len() {
        lemma_bits_value_end(bits, (i - 1) as nat);
        let p = pow2((i - 1) as nat) as int;
        assert(p * 0 == 0);
    }
}

/// Three bits more.
proof fn lemma_window_value(bits: Seq<Scalar>, k: nat)
    ensures
        bits_value(bits, 3 * (k + 1)) == bits_value(bits, 3 * k) + pow2(3 * k) * (bit_or_zero(
            bits,
            3 * k,
        ).w->Some_0 + 2 * bit_or_zero(bits, 3 * k + 1).w->Some_0 + 4 * bit_or_zero(
            bits,
            3 * k + 2,
        ).w->Some_0),
{
    let (b0, b1, b2) = (
        bit_or_zero(bits, 3 * k).w->Some_0,
        bit_or_zero(bits, 3 * k + 1).w->Some_0,
        bit_or_zero(bits, 3 * k + 2).w->Some_0,
    );
    reveal_with_fuel(bits_value, 4);
    vstd::arithmetic::power2::lemma_pow2_unfold(3 * k + 1);
    vstd::arithmetic::power2::lemma_pow2_unfold(3 * k + 2);
    let p = pow2(3 * k) as int;
    assert(pow2(3 * k + 1) == 2 * p);
    assert(pow2(3 * k + 2) == 4 * p);
    assert((2 * p) * b1 == p * (2 * b1)) by (nonlinear_arith);
    assert((4 * p) * b2 == p * (4 * b2)) by (nonlinear_arith);
    let (c1, c2) = (2 * b1, 4 * b2);
    assert(p * (b0 + c1 + c2) == p * b0 + p * c1 + p * c2) by (nonlinear_arith);
}

/// The negation of a point of the curve is one.
pub proof fn lemma_neg_on_curve(p: GinPoint)
    requires
        gin_on_curve(p),
    ensures
        gin_on_curve(gin_neg(p)),
{
    let m = fp_order();
    lemma_fp_order();
    let n = (-p.x) % m;
    lemma_cong_mod(-p.x, m);
    lemma_cong_mul(n, -p.x, n, -p.x, m);
    let x = p.x;
    assert((-x) * (-x) == x * x) by (nonlinear_arith);
    let (nn, xx, yy) = (n * n, x * x, p.y * p.y);
    lemma_cong_mul(ed_a(), ed_a(), nn, xx, m);
    lemma_cong_add(ed_a() * nn, ed_a() * xx, yy, yy, m);
    lemma_cong_mul(nn, xx, yy, yy, m);
    lemma_cong_mul(ed_d(), ed_d(), nn * yy, xx * yy, m);
    lemma_cong_add(1, 1, ed_d() * (nn * yy), ed_d() * (xx * yy), m);
}

/// Three doublings.
pub fn next_window(q: &GinAffine) -> (r: GinAffine)
    requires
        window_usable(q@),
    ensures
        r@ == gin_double(gin_double(gin_double(q@))),
        gin_on_curve(q@) ==> gin_on_curve(r@),
        forall|e: int| gin_exponent(q@, e) ==> #[trigger] gin_exponent(r@, 8 * e),
{
    let q2 = q.double();
    let q4 = q2.double();
    let q8 = q4.double();
    proof {
        assert forall|e: int| gin_exponent(q@, e) implies #[trigger] gin_exponent(q8@, 8 * e) by {
            lemma_double_exponent(q@, q2@, e);
            lemma_double_exponent(q2@, q4@, 2 * e);
            lemma_double_exponent(q4@, q8@, 4 * e);
        }
    }
    q8
}

fn bit_or_zero_of(bits: &[ScalarVar], i: usize) -> (r: ScalarVar)
    ensures
        r@ == bit_or_zero(scalars(bits@), i as nat),
{
    if i < bits.len() {
        bits[i].clone()
    } else {
        ScalarVar::constant(Fp::zero())
    }
}

proof fn lemma_bit_or_zero(sys: System, bits: Seq<Scalar>, i: nat)
    requires
        all_fit(sys, bits),
        are_bits(bits),
    ensures
        fits(sys, bit_or_zero(bits, i)),
        is_bit(bit_or_zero(bits, i)),
        all_known(bits) ==> bit_or_zero(bits, i).w is Some,
{
    if i < bits.len() {
        assert(fits(sys, bits[i as int]));
        assert(is_bit(bits[i as int]));
    }
}

/// Every scalar of the list is right.
pub open spec fn all_right(sys: System, s: Seq<Scalar>) -> bool {
    forall|i: int| 0 <= i < s.len() ==> right(sys, #[trigger] s[i])
}

proof fn lemma_bit_or_zero_right(sys: System, sys2: System, bits: Seq<Scalar>, i: nat)
    requires
        all_right(sys, bits),
        extends(sys, sys2),
        sys.c.n_mul <= usize::MAX,
    ensures
        right(sys2, bit_or_zero(bits, i)),
{
    if i < bits.len() {
        assert(right(sys, bits[i as int]));
        lemma_extends_right(sys, sys2, bits[i as int]);
    } else {
        lemma_const_right(sys2, 0);
    }
}

/// The exponent of the accumulator after one more window.
proof fn lemma_window_exponent(
    acc: GinPoint,
    t: GinPoint,
    sum: GinPoint,
    q: GinPoint,
    off: int,
    l: int,
    v: int,
    p: int,
    k: int,
)
    requires
        gin_exponent(acc, off + l * v),
        gin_exponent(t, k * gin_log(q)),
        gin_exponent(q, p * l),
        gin_is_pow(sum, (gin_log(acc) + gin_log(t)) % fs_order()),
    ensures
        gin_exponent(sum, off + l * (v + p * k)),
{
    let m = fs_order();
    lemma_fs_order();
    lemma_sum_exponent(acc, t, sum, off + l * v, k * gin_log(q));
    lemma_cong_mul(k, k, gin_log(q), p * l, m);
    lemma_cong_add(off + l * v, off + l * v, k * gin_log(q), k * (p * l), m);
    let pk = p * k;
    assert(k * (p * l) == l * (p * k)) by (nonlinear_arith);
    assert(l * (v + pk) == l * v + l * pk) by (nonlinear_arith);
}

/// The number with three bits.
pub open spec fn window_index(b0: Scalar, b1: Scalar, b2: Scalar) -> int {
    b0.w->Some_0 + 2 * b1.w->Some_0 + 4 * b2.w->Some_0
}

/// The table for window `k` of a base holds the right multiples.
pub open spec fn table_right(base: GinPoint, k: nat) -> bool {
    forall|i: int|
        0 <= i < 8 ==> gin_exponent(
            #[trigger] multiples(window_base(base, k))[i],
            i * (pow2(3 * k) * gin_log(base)),
        )
}

/// The tables for the first `n` windows of a base hold the right multiples.
pub open spec fn tables_right(base: GinPoint, n: nat) -> bool {
    gin_in_group(base) && forall|k: nat| k < n ==> #[trigger] table_right(base, k)
}

/// What the multiples of a base are computed with is right: the tables of its first
/// `n` windows, and the point that is taken away at the end.
pub open spec fn multiplier_right(base: GinPoint, offset: GinPoint, n: nat) -> bool {
    &&& tables_right(base, n)
    &&& gin_in_group(offset)
    &&& gin_exponent(gin_neg(offset), -gin_log(offset))
}

/// The values of scalars that are known.
pub open spec fn known_values(bits: Seq<Scalar>) -> Seq<Option<int>> {
    Seq::new(bits.len(), |i: int| bits[i].w)
}

/// Value `i`; zero behind the end.
pub open spec fn value_or_zero(w: Seq<Option<int>>, i: nat) -> Option<int> {
    if i < w.len() {
        w[i as int]
    } else {
        Some(0)
    }
}

/// The multiple that window `k` adds, where its bits are known.
pub open spec fn window_entry(w: Seq<Option<int>>, base: GinPoint, k: nat) -> Option<GinPoint> {
    match (value_or_zero(w, 3 * k), value_or_zero(w, 3 * k + 1), value_or_zero(w, 3 * k + 2)) {
        (Some(x), Some(y), Some(z)) => Some(multiples(window_base(base, k))[x + 2 * y + 4 * z]),
        _ => None,
    }
}

/// The accumulator after `k` windows, where the bits are known.
pub open spec fn walk(w: Seq<Option<int>>, base: GinPoint, offset: GinPoint, k: nat) -> Option<
    GinPoint,
>
    decreases k,
{
    if k == 0 {
        Some(offset)
    } else {
        match (
            walk(w, base, offset, (k - 1) as nat),
            window_entry(w, base, (k - 1) as nat),
        ) {
            (Some(a), Some(t)) => Some(gin_sum(a, t)),
            _ => None,
        }
    }
}

/// Whether the accumulator has coordinates after window `k`.
pub open spec fn step_usable(w: Seq<Option<int>>, base: GinPoint, offset: GinPoint, k: nat) -> bool {
    walk(w, base, offset, k) matches Some(a) ==> (window_entry(w, base, k) matches Some(t)
        ==> sum_defined(a, t))
}

/// Whether a scalar multiplication can be computed: the tables, and the accumulators that are
/// known. With points of the curve it always can.
pub open spec fn mul_usable(w: Seq<Option<int>>, base: GinPoint, offset: GinPoint) -> bool {
    let n = window_count(w.len());
    (gin_on_curve(base) && gin_on_curve(offset)) || {
        &&& base_usable(base, n)
        &&& forall|k: nat| k < n ==> #[trigger] step_usable(w, base, offset, k)
        &&& walk(w, base, offset, n) matches Some(a) ==> sum_defined(a, gin_neg(offset))
    }
}

/// The point that a scalar multiplication gives, where the bits are known.
pub open spec fn mul_point(w: Seq<Option<int>>, base: GinPoint, offset: GinPoint) -> Option<GinPoint> {
    match walk(w, base, offset, window_count(w.len())) {
        Some(a) => Some(gin_sum(a, gin_neg(offset))),
        None => None,
    }
}

/// Adds the multiple of `q` that three bits give. 10 gates.
fn add_window<CS: ConstraintSystem>(
    cs: &mut CS,
    acc: &PointVar,
    b0: &ScalarVar,
    b1: &ScalarVar,
    b2: &ScalarVar,
    q: &GinAffine,
) -> (r: PointVar)
    requires
        old(cs).well_formed(),
        old(cs).circuit().n_mul + 10 <= usize::MAX,
        point_fits(system(*old(cs)), acc@),
        fits(system(*old(cs)), b0@),
        fits(system(*old(cs)), b1@),
        fits(system(*old(cs)), b2@),
        is_bit(b0@),
        is_bit(b1@),
        is_bit(b2@),
        window_usable(q@),
        acc@.w matches Some(a) ==> (b0.w is Some && b1.w is Some && b2.w is Some ==> (gin_on_curve(a)
            && gin_on_curve(q@)) || sum_defined(a, multiples(q@)[window_index(b0@, b1@, b2@)])),
    ensures
        built(
            *old(cs),
            *final(cs),
            step_system(system(*old(cs)), acc@, b0@, b1@, b2@, q@),
        ),
        r@ == step_out(system(*old(cs)), acc@, b0@, b1@, b2@, q@),
        larger(system(*old(cs)), system(*final(cs))),
        system(*final(cs)).c.n_mul == system(*old(cs)).c.n_mul + 10,
        point_fits(system(*final(cs)), r@),
        r@.w == (if b0.w is Some && b1.w is Some && b2.w is Some && acc.w is Some {
            Some(gin_sum(acc@.w->Some_0, multiples(q@)[window_index(b0@, b1@, b2@)]))
        } else {
            None
        }),
        gin_on_curve(q@) && (acc@.w matches Some(a) ==> gin_on_curve(a)) ==> (r@.w matches Some(a)
            ==> gin_on_curve(a)),
        b0.w is Some && b1.w is Some && b2.w is Some && gin_in_group(q@) ==> {
            let t = multiples(q@)[window_index(b0@, b1@, b2@)];
            &&& gin_exponent(t, window_index(b0@, b1@, b2@) * gin_log(q@))
            &&& acc@.w matches Some(a) ==> (gin_in_group(a) ==> gin_is_pow(
                r@.w->Some_0,
                (gin_log(a) + gin_log(t)) % fs_order(),
            ))
        },
        gin_in_group(q@) ==> forall|i: int|
            0 <= i < 8 ==> gin_exponent(#[trigger] multiples(q@)[i], i * gin_log(q@)),
        good(system(*old(cs))) && point_right(system(*old(cs)), acc@) && right(
            system(*old(cs)),
            b0@,
        ) && right(system(*old(cs)), b1@) && right(system(*old(cs)), b2@) ==> {
            &&& good(system(*final(cs)))
            &&& extends(system(*old(cs)), system(*final(cs)))
            &&& point_right(system(*final(cs)), r@)
        },
{
    let ghost s1 = system(*cs);
    let table = multiples_of(q);
    let t = window_point(cs, b0, b1, b2, table.as_slice());
    let ghost s2 = system(*cs);
    proof {
        if t.w is Some {
            let idx = window_index(b0@, b1@, b2@);
            assert(0 <= idx < 8);
            assert(gins(table@)[idx] == table@[idx]@);
        }
        assert(larger(s1, s2) && s2.c.n_mul == s1.c.n_mul + 3);
        lemma_fits_larger(s1, s2, acc@.x);
        lemma_fits_larger(s1, s2, acc@.y);
        if good(s1) && point_right(s1, acc@) && right(s1, b0@) && right(s1, b1@) && right(s1, b2@) {
            lemma_window_honest(s1, b0@, b1@, b2@, multiples(q@));
            lemma_extends_point(s1, s2, acc@);
        }
    }
    let r = add_var(cs, acc, &t);
    let ghost s3 = system(*cs);
    proof {
        assert(larger(s2, s3) && s3.c.n_mul == s2.c.n_mul + 7);
        if good(s1) && point_right(s1, acc@) && right(s1, b0@) && right(s1, b1@) && right(s1, b2@) {
            lemma_extends_trans(s1, s2, s3);
        }
        if b0.w is Some && b1.w is Some && b2.w is Some {
            let idx = window_index(b0@, b1@, b2@);
            assert(0 <= idx < 8);
            assert(gins(table@)[idx] == table@[idx]@);
            if gin_on_curve(q@) {
                assert(gin_on_curve(table@[idx]@));
            }
            if gin_in_group(q@) {
                assert(gin_exponent(table@[idx]@, idx * gin_log(q@)));
            }
        }
        if gin_in_group(q@) {
            assert forall|i: int| 0 <= i < 8 implies gin_exponent(
                #[trigger] multiples(q@)[i],
                i * gin_log(q@),
            ) by {
                assert(gins(table@)[i] == table@[i]@);
            }
        }
    }
    r
}

/// The table of window `k`, by the exponent of the window's base.
proof fn lemma_table_right(base: GinPoint, k: nat, q: GinPoint)
    requires
        q == window_base(base, k),
        gin_exponent(q, pow2(3 * k) * gin_log(base)),
        forall|i: int|
            0 <= i < 8 ==> gin_exponent(#[trigger] multiples(q)[i], i * gin_log(q)),
    ensures
        table_right(base, k),
{
    let m = fs_order();
    lemma_fs_order();
    let e = pow2(3 * k) * gin_log(base);
    assert forall|i: int| 0 <= i < 8 implies gin_exponent(
        #[trigger] multiples(window_base(base, k))[i],
        i * (pow2(3 * k) * gin_log(base)),
    ) by {
        assert(gin_exponent(multiples(q)[i], i * gin_log(q)));
        lemma_cong_mul(i, i, gin_log(q), e, m);
    }
}

/// What a usable multiplication says of window `k`.
proof fn lemma_step(
    ws: Seq<Option<int>>,
    bs: Seq<Scalar>,
    base: GinPoint,
    offset: GinPoint,
    k: nat,
)
    requires
        ws == known_values(bs),
        are_bits(bs),
        mul_usable(ws, base, offset),
        k < window_count(bs.len()),
        gin_on_curve(base) ==> gin_on_curve(window_base(base, k)),
        gin_on_curve(base) && gin_on_curve(offset) ==> (walk(ws, base, offset, k) matches Some(a)
            ==> gin_on_curve(a)),
    ensures
        ({
            let (b0, b1, b2) = (
                bit_or_zero(bs, 3 * k),
                bit_or_zero(bs, 3 * k + 1),
                bit_or_zero(bs, 3 * k + 2),
            );
            let q = window_base(base, k);
            &&& window_usable(q)
            &&& window_entry(ws, base, k) == (if b0.w is Some && b1.w is Some && b2.w is Some {
                Some(multiples(q)[window_index(b0, b1, b2)])
            } else {
                None
            })
            &&& gin_on_curve(base) && gin_on_curve(offset) || step_usable(ws, base, offset, k)
        }),
{
    assert(base_usable(base, window_count(ws.len())));
    if !gin_on_curve(base) {
        assert(window_usable(window_base(base, k)));
    }
}

/// `∑ b_i·2^i · base` for bits `b_i` and a constant base, with the accumulator
/// starting at the given point, which is taken away at the end.
#[verifier::spinoff_prover]
#[verifier::rlimit(40)]
pub fn scalar_mul_with_offset<CS: ConstraintSystem>(
    cs: &mut CS,
    bits: &[ScalarVar],
    base: &GinAffine,
    offset: &GinAffine,
) -> (r: PointVar)
    requires
        old(cs).well_formed(),
        old(cs).circuit().n_mul + 10 * window_count(bits@.len()) + 3 <= usize::MAX,
        bits@.len() + 3 <= usize::MAX,
        all_fit(system(*old(cs)), scalars(bits@)),
        are_bits(scalars(bits@)),
        mul_usable(known_values(scalars(bits@)), base@, offset@),
    ensures
        built(
            *old(cs),
            *final(cs),
            scalar_mul_system(system(*old(cs)), scalars(bits@), base@, offset@),
        ),
        r@ == scalar_mul_out(system(*old(cs)), scalars(bits@), base@, offset@),
        r@.w == mul_point(known_values(scalars(bits@)), base@, offset@),
        gin_on_curve(base@) && gin_on_curve(offset@) ==> (r@.w matches Some(p) ==> gin_on_curve(p)),
        point_fits(system(*final(cs)), r@),
        final(cs).circuit().n_mul == old(cs).circuit().n_mul + 10 * window_count(bits@.len()) + 3,
        all_known(scalars(bits@)) && gin_in_group(base@) && gin_in_group(offset@) ==> {
            r@.w matches Some(p) && gin_exponent(
                p,
                gin_log(base@) * bits_value(scalars(bits@), bits@.len()),
            )
        },
        gin_in_group(base@) && gin_in_group(offset@) ==> multiplier_right(
            base@,
            offset@,
            window_count(bits@.len()),
        ),
        good(system(*old(cs))) && all_right(system(*old(cs)), scalars(bits@)) ==> {
            &&& good(system(*final(cs)))
            &&& extends(system(*old(cs)), system(*final(cs)))
            &&& point_right(system(*final(cs)), r@)
        },
{
    let ghost cs0 = *cs;
    let ghost s0 = system(*cs);
    let ghost bs = scalars(bits@);
    let ghost n = window_count(bits@.len());
    let ghost ws = known_values(bs);
    let ghost curve = gin_on_curve(base@) && gin_on_curve(offset@);
    reveal(scalar_mul_system);
    reveal(scalar_mul_out);
    let ghost known = all_known(bs) && gin_in_group(base@) && gin_in_group(offset@);
    let ghost grouped = gin_in_group(base@);
    let ghost honest = good(s0) && all_right(s0, bs);
    let ghost (l, off) = (gin_log(base@), gin_log(offset@));
    let chunks: usize = (bits.len() + 2) / 3;
    let mut acc = PointVar::constant(offset);
    let mut q = *base;
    let mut i: usize = 0;
    proof {
        vstd::arithmetic::power2::lemma_pow2(0);
        vstd::arithmetic::power::lemma_pow0(2);
        assert(l * 0 == 0);
        assert(1 * l == l);
        if honest {
            lemma_extends_self(s0);
            lemma_const_right(s0, offset@.x);
            lemma_const_right(s0, offset@.y);
        }
    }
    while i < chunks
        invariant
            i <= chunks,
            chunks == n,
            n == window_count(bits@.len()),
            bits@.len() + 3 <= usize::MAX,
            bs == scalars(bits@),
            bs.len() == bits@.len(),
            s0 == system(cs0),
            s0.c.n_mul + 10 * n + 3 <= usize::MAX,
            all_fit(s0, bs),
            are_bits(bs),
            known == (all_known(bs) && gin_in_group(base@) && gin_in_group(offset@)),
            l == gin_log(base@),
            off == gin_log(offset@),
            built(cs0, *cs, windows(s0, bs, base@, offset@, i as nat).0),
            acc@ == windows(s0, bs, base@, offset@, i as nat).1,
            larger(s0, system(*cs)),
            system(*cs).c.n_mul == s0.c.n_mul + 10 * i,
            point_fits(system(*cs), acc@),
            q@ == window_base(base@, i as nat),
            ws == known_values(bs),
            curve == (gin_on_curve(base@) && gin_on_curve(offset@)),
            mul_usable(ws, base@, offset@),
            acc@.w == walk(ws, base@, offset@, i as nat),
            gin_on_curve(base@) ==> gin_on_curve(q@),
            curve ==> (acc@.w matches Some(a) ==> gin_on_curve(a)),
            grouped == gin_in_group(base@),
            grouped ==> gin_exponent(q@, pow2(3 * i as nat) * l),
            grouped ==> tables_right(base@, i as nat),
            known ==> (acc@.w matches Some(a) && gin_exponent(
                a,
                off + l * bits_value(bs, 3 * i as nat),
            )),
            honest == (good(s0) && all_right(s0, bs)),
            honest ==> good(system(*cs)) && extends(s0, system(*cs)) && point_right(
                system(*cs),
                acc@,
            ),
        decreases chunks - i,
    {
        let ghost k = i as nat;
        let ghost s1 = system(*cs);
        let b0 = bit_or_zero_of(bits, 3 * i);
        let b1 = bit_or_zero_of(bits, 3 * i + 1);
        let b2 = bit_or_zero_of(bits, 3 * i + 2);
        proof {
            lemma_bit_or_zero(s0, bs, 3 * k);
            lemma_bit_or_zero(s0, bs, 3 * k + 1);
            lemma_bit_or_zero(s0, bs, 3 * k + 2);
            lemma_fits_larger(s0, s1, b0@);
            lemma_fits_larger(s0, s1, b1@);
            lemma_fits_larger(s0, s1, b2@);
            if honest {
                lemma_bit_or_zero_right(s0, s1, bs, 3 * k);
                lemma_bit_or_zero_right(s0, s1, bs, 3 * k + 1);
                lemma_bit_or_zero_right(s0, s1, bs, 3 * k + 2);
            }
        }
        let ghost a0 = acc@;
        proof {
            lemma_step(ws, bs, base@, offset@, k);
        }
        acc = add_window(cs, &acc, &b0, &b1, &b2, &q);
        proof {
            if honest {
                lemma_extends_trans(s0, s1, system(*cs));
            }
            if known {
                let idx = window_index(b0@, b1@, b2@);
                assert(gin_in_group(q@));
                lemma_window_exponent(
                    a0.w->Some_0,
                    multiples(q@)[idx],
                    acc@.w->Some_0,
                    q@,
                    off,
                    l,
                    bits_value(bs, 3 * k),
                    pow2(3 * k) as int,
                    idx,
                );
                lemma_window_value(bs, k);
                assert(3 * (k + 1) == 3 * ((i + 1) as nat));
            }
        }
        let q2 = next_window(&q);
        proof {
            if grouped {
                lemma_table_right(base@, k, q@);
                let p = pow2(3 * k) as int;
                assert(gin_exponent(q2@, 8 * (p * l)));
                vstd::arithmetic::power2::lemma_pow2_unfold(3 * k + 1);
                vstd::arithmetic::power2::lemma_pow2_unfold(3 * k + 2);
                vstd::arithmetic::power2::lemma_pow2_unfold(3 * k + 3);
                assert(pow2(3 * k + 3) == 8 * p);
                assert(8 * (p * l) == (8 * p) * l) by (nonlinear_arith);
                assert(3 * ((i + 1) as nat) == 3 * k + 3);
            }
        }
        q = q2;
        i = i + 1;
    }
    let neg = offset.negate();
    proof {
        if curve {
            lemma_neg_on_curve(offset@);
        }
    }
    let ghost a0 = acc@;
    let ghost s1 = system(*cs);
    let r = add_const(cs, &acc, &neg);
    proof {
        if honest {
            lemma_extends_trans(s0, s1, system(*cs));
        }
        if gin_in_group(offset@) {
            let m = fs_order();
            lemma_fs_order();
            lemma_gin_log(neg@, (-off) % m);
            lemma_cong_mod(-off, m);
            assert(gin_exponent(neg@, -off));
        }
        if known {
            let v = bits_value(bs, 3 * n);
            lemma_bits_value_end(bs, 3 * n);
            lemma_sum_exponent(a0.w->Some_0, neg@, r@.w->Some_0, off + l * v, -off);
        }
    }
    r
}

/// The point that accumulators start at, where it exists: a hash, so that nothing
/// is known of it.
pub open spec fn offset_hash() -> Option<GinPoint> {
    gin_hash("gadget-offset".spec_bytes(), "v1".spec_bytes())
}

/// The point that accumulators start at; `None` if no attempt of the hash gives one.
pub fn try_offset_point() -> (r: Option<GinAffine>)
    ensures
        (match r {
            Some(p) => Some(p@),
            None => None,
        }) == offset_hash(),
        r matches Some(p) ==> gin_in_group(p@) && gin_on_curve(p@),
{
    try_hash_to_gin("gadget-offset".as_bytes(), "v1".as_bytes())
}

/// The point that accumulators start at: an arbitrary point of the prime-order
/// subgroup, not the neutral element.
fn offset_point() -> (r: GinAffine)
    requires
        offset_hash() is Some,
    ensures
        Some(r@) == offset_hash(),
        gin_in_group(r@),
        gin_on_curve(r@),
        r@ != gin_identity(),
{
    hash_to_gin("gadget-offset".as_bytes(), "v1".as_bytes())
}

/// Whether [`scalar_mul_const`] can be computed. With a point of the curve it always can.
pub open spec fn const_mul_usable(w: Seq<Option<int>>, base: GinPoint) -> bool {
    gin_on_curve(base) || mul_usable(w, base, offset_hash()->Some_0)
}

/// `∑ b_i·2^i · base` for bits `b_i` and a constant base, by windows of three bits.
/// `10·⌈n/3⌉ + 3` gates.
///
/// The accumulator starts at a fixed point that is taken away at the end. (The
/// addition law is complete, but so the accumulator is a point like any other.)
pub fn scalar_mul_const<CS: ConstraintSystem>(cs: &mut CS, bits: &[ScalarVar], base: &GinAffine) -> (r:
    PointVar)
    requires
        old(cs).well_formed(),
        old(cs).circuit().n_mul + 10 * window_count(bits@.len()) + 3 <= usize::MAX,
        bits@.len() + 3 <= usize::MAX,
        all_fit(system(*old(cs)), scalars(bits@)),
        are_bits(scalars(bits@)),
        offset_hash() is Some,
        const_mul_usable(known_values(scalars(bits@)), base@),
    ensures
        built(
            *old(cs),
            *final(cs),
            scalar_mul_system(
                system(*old(cs)),
                scalars(bits@),
                base@,
                offset_hash()->Some_0,
            ),
        ),
        r@ == scalar_mul_out(
            system(*old(cs)),
            scalars(bits@),
            base@,
            offset_hash()->Some_0,
        ),
        r@.w == mul_point(known_values(scalars(bits@)), base@, offset_hash()->Some_0),
        point_fits(system(*final(cs)), r@),
        final(cs).circuit().n_mul == old(cs).circuit().n_mul + 10 * window_count(bits@.len()) + 3,
        all_known(scalars(bits@)) && gin_in_group(base@) ==> {
            r@.w matches Some(p) && gin_exponent(
                p,
                gin_log(base@) * bits_value(scalars(bits@), bits@.len()),
            )
        },
        gin_in_group(base@) ==> multiplier_right(
            base@,
            offset_hash()->Some_0,
            window_count(bits@.len()),
        ),
        good(system(*old(cs))) && all_right(system(*old(cs)), scalars(bits@)) ==> {
            &&& good(system(*final(cs)))
            &&& extends(system(*old(cs)), system(*final(cs)))
            &&& point_right(system(*final(cs)), r@)
        },
{
    let offset = offset_point();
    scalar_mul_with_offset(cs, bits, base, &offset)
}

} // verus!
