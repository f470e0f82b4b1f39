//! Rank-1 constraint systems.
//!
//! A constraint system over `F_p` is built from
//! * *multiplication gates* `a_L[i] · a_R[i] = a_O[i]`,
//! * *committed values* `v[j]` with Pedersen commitments `V[j]`,
//! * *linear constraints* over the wires `a_L`, `a_R`, `a_O`, `v` and the constant
//!   1, each a [`LinearCombination`] that must be zero.
//!
//! Prover and verifier build the *same* circuit; only the prover assigns values.
use crate::algebra::{
    cong, lemma_cong_add, lemma_cong_mod, lemma_cong_mul, lemma_cong_sub, lemma_mod_reduced,
    lemma_pow_succ, lemma_sigma_eq, lemma_sigma_zero, sigma,
};
use crate::curves::{Fp, GoutPoint};
use crate::field::{fp_order, fps, lemma_fp_order, lemma_fp_range};
use crate::transcript::TranscriptEvent;
use crate::zk::generators::BpGens;
use vstd::arithmetic::power::{lemma_pow1, pow};
use vstd::pervasive::arbitrary;
use vstd::prelude::*;
use vstd::std_specs::convert::FromSpecImpl;
use vstd::std_specs::ops::{AddSpecImpl, MulSpecImpl, NegSpecImpl, SubSpecImpl};

verus! {

/// A wire in the constraint system.
#[derive(Clone, Copy, Debug, PartialEq, Eq, PartialOrd, Ord, Structural)]
pub enum Variable {
    /// Committed value `v[j]`.
    Committed(usize),
    /// Left input of multiplication gate `i`.
    MultiplierLeft(usize),
    /// Right input of multiplication gate `i`.
    MultiplierRight(usize),
    /// Output of multiplication gate `i`.
    MultiplierOutput(usize),
    /// The constant `1`.
    One,
}

/// A linear combination in contracts: wires with their coefficients.
pub type Lc = Seq<(Variable, int)>;

/// The values on the wires.
pub struct Values {
    pub a_l: Seq<int>,
    pub a_r: Seq<int>,
    pub a_o: Seq<int>,
    pub v: Seq<int>,
}

/// What a constraint system consists of: numbers of gates and of committed values,
/// and the linear constraints.
pub struct Circuit {
    pub n_mul: nat,
    pub n_committed: nat,
    pub constraints: Seq<Lc>,
}

/// The value on a wire.
pub open spec fn wire(var: Variable, w: Values) -> int {
    match var {
        Variable::Committed(j) => w.v[j as int],
        Variable::MultiplierLeft(i) => w.a_l[i as int],
        Variable::MultiplierRight(i) => w.a_r[i as int],
        Variable::MultiplierOutput(i) => w.a_o[i as int],
        Variable::One => 1,
    }
}

/// The wire exists in a system with `n` gates and `m` committed values.
pub open spec fn var_in(var: Variable, n: nat, m: nat) -> bool {
    match var {
        Variable::Committed(j) => j < m,
        Variable::MultiplierLeft(i) => i < n,
        Variable::MultiplierRight(i) => i < n,
        Variable::MultiplierOutput(i) => i < n,
        Variable::One => true,
    }
}

/// Every wire of the combination exists.
pub open spec fn lc_in(lc: Lc, n: nat, m: nat) -> bool {
    forall|k: int| 0 <= k < lc.len() ==> var_in((#[trigger] lc[k]).0, n, m)
}

/// `∑ c · x` over the terms, not reduced.
pub open spec fn lc_eval(lc: Lc, w: Values) -> int
    decreases lc.len(),
{
    if lc.len() == 0 {
        0
    } else {
        lc_eval(lc.drop_last(), w) + lc.last().1 * wire(lc.last().0, w)
    }
}

/// The coefficient of a wire, all its terms taken together.
pub open spec fn coeff(lc: Lc, var: Variable) -> int
    decreases lc.len(),
{
    if lc.len() == 0 {
        0
    } else {
        coeff(lc.drop_last(), var) + (if lc.last().0 == var {
            lc.last().1
        } else {
            0
        })
    }
}

/// `∑_q z^{q+1} · (coefficient of the wire in constraint q)`, not reduced.
pub open spec fn flat(constraints: Seq<Lc>, var: Variable, z: int) -> int
    decreases constraints.len(),
{
    if constraints.len() == 0 {
        0
    } else {
        flat(constraints.drop_last(), var, z) + coeff(constraints.last(), var) * pow(
            z,
            constraints.len(),
        )
    }
}

/// The coefficient `-1`.
pub open spec fn minus_one() -> int {
    fp_order() - 1
}

/// `c · lc`, coefficient by coefficient.
pub open spec fn lc_scale(lc: Lc, c: int) -> Lc {
    Seq::new(lc.len(), |k: int| (lc[k].0, (lc[k].1 * c) % fp_order()))
}

/// `-lc`, coefficient by coefficient.
pub open spec fn lc_neg(lc: Lc) -> Lc {
    Seq::new(lc.len(), |k: int| (lc[k].0, (-lc[k].1) % fp_order()))
}

/// `lc` with one more term, unless its coefficient is zero.
pub open spec fn lc_add_term(lc: Lc, var: Variable, c: int) -> Lc {
    if c == 0 {
        lc
    } else {
        lc.push((var, c))
    }
}

/// `c · lc`; no terms for `c = 0`.
pub open spec fn lc_mul(lc: Lc, c: int) -> Lc {
    if c == 0 {
        Seq::empty()
    } else {
        lc_scale(lc, c)
    }
}

/// The constant `c`; no term for `c = 0`.
pub open spec fn lc_const(c: int) -> Lc {
    lc_add_term(Seq::empty(), Variable::One, c)
}

/// A single wire.
pub open spec fn lc_var(var: Variable) -> Lc {
    seq![(var, 1int)]
}

/// The values respect every gate and every constraint.
pub open spec fn satisfied(c: Circuit, w: Values) -> bool {
    &&& values_fit(c, w)
    &&& gates_hold(w)
    &&& forall|q: int|
        0 <= q < c.constraints.len() ==> cong(lc_eval(#[trigger] c.constraints[q], w), 0, fp_order())
}

/// There is a value for every wire.
pub open spec fn values_fit(c: Circuit, w: Values) -> bool {
    &&& w.a_l.len() == c.n_mul
    &&& w.a_r.len() == c.n_mul
    &&& w.a_o.len() == c.n_mul
    &&& w.v.len() == c.n_committed
}

/// `a_L[i] · a_R[i] = a_O[i]` at every gate.
pub open spec fn gates_hold(w: Values) -> bool {
    forall|i: int|
        0 <= i < w.a_o.len() ==> cong(w.a_l[i] * w.a_r[i], #[trigger] w.a_o[i], fp_order())
}

/// Every constraint uses wires that exist.
pub open spec fn circuit_ok(c: Circuit) -> bool {
    forall|q: int|
        0 <= q < c.constraints.len() ==> lc_in(#[trigger] c.constraints[q], c.n_mul, c.n_committed)
}

/// The circuit with one more constraint.
pub open spec fn with_constraint(c: Circuit, lc: Lc) -> Circuit {
    Circuit { constraints: c.constraints.push(lc), ..c }
}

/// The circuit with one more gate, whose inputs are free.
pub open spec fn with_gate(c: Circuit) -> Circuit {
    Circuit { n_mul: c.n_mul + 1, ..c }
}

/// The wires of the next gate.
pub open spec fn next_gate(c: Circuit) -> (Variable, Variable, Variable) {
    let i = c.n_mul as usize;
    (Variable::MultiplierLeft(i), Variable::MultiplierRight(i), Variable::MultiplierOutput(i))
}

/// The values with those of one more gate.
pub open spec fn with_inputs(w: Values, l: int, r: int) -> Values {
    Values {
        a_l: w.a_l.push(l),
        a_r: w.a_r.push(r),
        a_o: w.a_o.push((l * r) % fp_order()),
        v: w.v,
    }
}

// ─── linear combinations ────────────────────────────────────────────────────

/// A linear combination `∑ c_i · x_i + c_0`: a list of wires and coefficients, in
/// which a wire may occur more than once.
#[derive(Debug, Default)]
pub struct LinearCombination {
    pub terms: Vec<(Variable, Fp)>,
}

impl View for LinearCombination {
    type V = Lc;

    open spec fn view(&self) -> Lc {
        Seq::new(self.terms@.len(), |k: int| (self.terms@[k].0, self.terms@[k].1@))
    }
}

impl Clone for LinearCombination {
    fn clone(&self) -> (r: Self)
        ensures
            r@ == self@,
    {
        let mut terms: Vec<(Variable, Fp)> = Vec::with_capacity(self.terms.len());
        let mut i: usize = 0;
        while i < self.terms.len()
            invariant
                i <= self.terms@.len(),
                terms@ == self.terms@.take(i as int),
            decreases self.terms@.len() - i,
        {
            terms.push(self.terms[i]);
            proof {
                assert(self.terms@.take(i + 1) =~= self.terms@.take(i as int).push(
                    self.terms@[i as int],
                ));
            }
            i = i + 1;
        }
        assert(self.terms@.take(i as int) =~= self.terms@);
        LinearCombination { terms }
    }
}

impl LinearCombination {
    pub fn zero() -> (r: Self)
        ensures
            r@ == Seq::<(Variable, int)>::empty(),
    {
        let r = LinearCombination { terms: Vec::new() };
        assert(r@ =~= Seq::<(Variable, int)>::empty());
        r
    }

    pub fn constant(c: Fp) -> (r: Self)
        ensures
            r@ == lc_const(c@),
    {
        let mut r = LinearCombination::zero();
        r.add_term(Variable::One, c);
        r
    }

    pub fn add_term(&mut self, v: Variable, c: Fp)
        ensures
            final(self)@ == lc_add_term(old(self)@, v, c@),
    {
        let ghost before = self@;
        if !c.is_zero() {
            self.terms.push((v, c));
            assert(self@ =~= before.push((v, c@)));
        }
    }

    /// `-self`.
    pub fn negate(self) -> (r: Self)
        ensures
            r@ == lc_neg(self@),
    {
        let mut terms: Vec<(Variable, Fp)> = Vec::with_capacity(self.terms.len());
        let mut i: usize = 0;
        while i < self.terms.len()
            invariant
                i <= self.terms@.len(),
                terms@.len() == i,
                forall|k: int|
                    0 <= k < i ==> (#[trigger] terms@[k]).0 == self.terms@[k].0 && terms@[k].1@ == (
                    -self.terms@[k].1@) % fp_order(),
            decreases self.terms@.len() - i,
        {
            let (v, c) = self.terms[i];
            terms.push((v, c.negate()));
            i = i + 1;
        }
        let r = LinearCombination { terms };
        assert(r@ =~= lc_neg(self@));
        r
    }

    /// `s · self`.
    pub fn scaled(self, s: Fp) -> (r: Self)
        ensures
            r@ == lc_mul(self@, s@),
    {
        if s.is_zero() {
            return LinearCombination::zero();
        }
        let mut terms: Vec<(Variable, Fp)> = Vec::with_capacity(self.terms.len());
        let mut i: usize = 0;
        while i < self.terms.len()
            invariant
                i <= self.terms@.len(),
                terms@.len() == i,
                forall|k: int|
                    0 <= k < i ==> (#[trigger] terms@[k]).0 == self.terms@[k].0 && terms@[k].1@ == (
                    self.terms@[k].1@ * s@) % fp_order(),
            decreases self.terms@.len() - i,
        {
            let (v, c) = self.terms[i];
            terms.push((v, c * s));
            i = i + 1;
        }
        let r = LinearCombination { terms };
        assert(r@ =~= lc_scale(self@, s@));
        r
    }

    /// `self + rhs`.
    pub fn plus(self, rhs: LinearCombination) -> (r: Self)
        ensures
            r@ == self@ + rhs@,
    {
        let mut terms: Vec<(Variable, Fp)> = self.terms;
        let mut i: usize = 0;
        while i < rhs.terms.len()
            invariant
                i <= rhs.terms@.len(),
                terms@ == self.terms@ + rhs.terms@.take(i as int),
            decreases rhs.terms@.len() - i,
        {
            terms.push(rhs.terms[i]);
            proof {
                assert(terms@ =~= self.terms@ + rhs.terms@.take(i + 1));
            }
            i = i + 1;
        }
        let r = LinearCombination { terms };
        assert(r@ =~= self@ + rhs@);
        r
    }
}

impl core::ops::Add<LinearCombination> for LinearCombination {
    type Output = Self;

    fn add(self, rhs: LinearCombination) -> (r: Self)
        ensures
            r@ == self@ + rhs@,
    {
        self.plus(rhs)
    }
}

impl AddSpecImpl<LinearCombination> for LinearCombination {
    open spec fn obeys_add_spec() -> bool {
        false
    }

    open spec fn add_req(self, rhs: LinearCombination) -> bool {
        true
    }

    open spec fn add_spec(self, rhs: LinearCombination) -> Self {
        arbitrary()
    }
}

impl core::ops::Sub<LinearCombination> for LinearCombination {
    type Output = Self;

    fn sub(self, rhs: LinearCombination) -> (r: Self)
        ensures
            r@ == self@ + lc_neg(rhs@),
    {
        self.plus(rhs.negate())
    }
}

impl SubSpecImpl<LinearCombination> for LinearCombination {
    open spec fn obeys_sub_spec() -> bool {
        false
    }

    open spec fn sub_req(self, rhs: LinearCombination) -> bool {
        true
    }

    open spec fn sub_spec(self, rhs: LinearCombination) -> Self {
        arbitrary()
    }
}

impl core::ops::Neg for LinearCombination {
    type Output = Self;

    fn neg(self) -> (r: Self)
        ensures
            r@ == lc_neg(self@),
    {
        self.negate()
    }
}

impl NegSpecImpl for LinearCombination {
    open spec fn obeys_neg_spec() -> bool {
        false
    }

    open spec fn neg_req(self) -> bool {
        true
    }

    open spec fn neg_spec(self) -> Self {
        arbitrary()
    }
}

impl core::ops::Mul<Fp> for LinearCombination {
    type Output = Self;

    fn mul(self, rhs: Fp) -> (r: Self)
        ensures
            r@ == lc_mul(self@, rhs@),
    {
        self.scaled(rhs)
    }
}

impl MulSpecImpl<Fp> for LinearCombination {
    open spec fn obeys_mul_spec() -> bool {
        false
    }

    open spec fn mul_req(self, rhs: Fp) -> bool {
        true
    }

    open spec fn mul_spec(self, rhs: Fp) -> Self {
        arbitrary()
    }
}

impl core::ops::Add<Variable> for LinearCombination {
    type Output = Self;

    fn add(self, rhs: Variable) -> (r: Self)
        ensures
            r@ == self@.push((rhs, 1)),
    {
        let mut r = self;
        r.add_term(rhs, Fp::one());
        r
    }
}

impl AddSpecImpl<Variable> for LinearCombination {
    open spec fn obeys_add_spec() -> bool {
        false
    }

    open spec fn add_req(self, rhs: Variable) -> bool {
        true
    }

    open spec fn add_spec(self, rhs: Variable) -> Self {
        arbitrary()
    }
}

impl core::ops::Sub<Variable> for LinearCombination {
    type Output = Self;

    fn sub(self, rhs: Variable) -> (r: Self)
        ensures
            r@ == self@.push((rhs, minus_one())),
    {
        let mut r = self;
        let c = Fp::one().negate();
        proof {
            lemma_minus_one();
        }
        r.add_term(rhs, c);
        r
    }
}

impl SubSpecImpl<Variable> for LinearCombination {
    open spec fn obeys_sub_spec() -> bool {
        false
    }

    open spec fn sub_req(self, rhs: Variable) -> bool {
        true
    }

    open spec fn sub_spec(self, rhs: Variable) -> Self {
        arbitrary()
    }
}

impl core::ops::Add<Fp> for LinearCombination {
    type Output = Self;

    fn add(self, rhs: Fp) -> (r: Self)
        ensures
            r@ == lc_add_term(self@, Variable::One, rhs@),
    {
        let mut r = self;
        r.add_term(Variable::One, rhs);
        r
    }
}

impl AddSpecImpl<Fp> for LinearCombination {
    open spec fn obeys_add_spec() -> bool {
        false
    }

    open spec fn add_req(self, rhs: Fp) -> bool {
        true
    }

    open spec fn add_spec(self, rhs: Fp) -> Self {
        arbitrary()
    }
}

impl core::ops::Sub<Fp> for LinearCombination {
    type Output = Self;

    fn sub(self, rhs: Fp) -> (r: Self)
        ensures
            r@ == lc_add_term(self@, Variable::One, (-rhs@) % fp_order()),
    {
        let mut r = self;
        r.add_term(Variable::One, rhs.negate());
        r
    }
}

impl SubSpecImpl<Fp> for LinearCombination {
    open spec fn obeys_sub_spec() -> bool {
        false
    }

    open spec fn sub_req(self, rhs: Fp) -> bool {
        true
    }

    open spec fn sub_spec(self, rhs: Fp) -> Self {
        arbitrary()
    }
}

impl From<Variable> for LinearCombination {
    fn from(v: Variable) -> (r: Self)
        ensures
            r@ == lc_var(v),
    {
        let mut r = LinearCombination::zero();
        r.add_term(v, Fp::one());
        assert(r@ =~= lc_var(v));
        r
    }
}

impl FromSpecImpl<Variable> for LinearCombination {
    open spec fn obeys_from_spec() -> bool {
        false
    }

    open spec fn from_spec(v: Variable) -> Self {
        arbitrary()
    }
}

impl From<Fp> for LinearCombination {
    fn from(v: Fp) -> (r: Self)
        ensures
            r@ == lc_const(v@),
    {
        LinearCombination::constant(v)
    }
}

impl FromSpecImpl<Fp> for LinearCombination {
    open spec fn obeys_from_spec() -> bool {
        false
    }

    open spec fn from_spec(v: Fp) -> Self {
        arbitrary()
    }
}

pub proof fn lemma_minus_one()
    ensures
        (-1int) % fp_order() == minus_one(),
        minus_one() != 0,
{
    lemma_fp_order();
    let m = fp_order();
    vstd::arithmetic::div_mod::lemma_mod_add_multiples_vanish(-1, m);
    lemma_mod_reduced(m - 1, m);
}

// ─── values of linear combinations ──────────────────────────────────────────

pub proof fn lemma_lc_eval_push(lc: Lc, var: Variable, c: int, w: Values)
    ensures
        lc_eval(lc.push((var, c)), w) == lc_eval(lc, w) + c * wire(var, w),
{
    assert(lc.push((var, c)).drop_last() =~= lc);
}

pub proof fn lemma_lc_eval_add_term(lc: Lc, var: Variable, c: int, w: Values)
    ensures
        lc_eval(lc_add_term(lc, var, c), w) == lc_eval(lc, w) + c * wire(var, w),
{
    if c == 0 {
        let x = wire(var, w);
        assert(0 * x == 0);
    } else {
        lemma_lc_eval_push(lc, var, c, w);
    }
}

pub proof fn lemma_lc_eval_concat(a: Lc, b: Lc, w: Values)
    ensures
        lc_eval(a + b, w) == lc_eval(a, w) + lc_eval(b, w),
    decreases b.len(),
{
    if b.len() == 0 {
        assert(a + b =~= a);
    } else {
        lemma_lc_eval_concat(a, b.drop_last(), w);
        assert((a + b).drop_last() =~= a + b.drop_last());
        assert((a + b).last() == b.last());
    }
}

pub proof fn lemma_lc_eval_mul(lc: Lc, c: int, w: Values)
    ensures
        cong(lc_eval(lc_mul(lc, c), w), lc_eval(lc, w) * c, fp_order()),
    decreases lc.len(),
{
    let m = fp_order();
    lemma_fp_order();
    if c == 0 {
        let e = lc_eval(lc, w);
        assert(e * 0 == 0);
    } else if lc.len() == 0 {
        assert(lc_mul(lc, c) =~= Seq::<(Variable, int)>::empty());
        assert(0 * c == 0);
    } else {
        let rest = lc.drop_last();
        lemma_lc_eval_mul(rest, c, w);
        assert(lc_scale(lc, c).drop_last() =~= lc_scale(rest, c));
        let (k, x, e) = (lc.last().1, wire(lc.last().0, w), lc_eval(rest, w));
        lemma_cong_mod(k * c, m);
        lemma_cong_mul((k * c) % m, k * c, x, x, m);
        lemma_cong_add(lc_eval(lc_scale(rest, c), w), e * c, ((k * c) % m) * x, (k * c) * x, m);
        assert(e * c + (k * c) * x == (e + k * x) * c) by (nonlinear_arith);
    }
}

pub proof fn lemma_lc_eval_neg(lc: Lc, w: Values)
    ensures
        cong(lc_eval(lc_neg(lc), w), -lc_eval(lc, w), fp_order()),
    decreases lc.len(),
{
    let m = fp_order();
    lemma_fp_order();
    if lc.len() == 0 {
        assert(lc_neg(lc) =~= Seq::<(Variable, int)>::empty());
    } else {
        let rest = lc.drop_last();
        lemma_lc_eval_neg(rest, w);
        assert(lc_neg(lc).drop_last() =~= lc_neg(rest));
        let (k, x, e) = (lc.last().1, wire(lc.last().0, w), lc_eval(rest, w));
        lemma_cong_mod(-k, m);
        lemma_cong_mul((-k) % m, -k, x, x, m);
        lemma_cong_add(lc_eval(lc_neg(rest), w), -e, ((-k) % m) * x, (-k) * x, m);
        assert(-e + (-k) * x == -(e + k * x)) by (nonlinear_arith);
    }
}

/// The value of a combination depends on the wires it uses only.
pub proof fn lemma_lc_eval_same(lc: Lc, w: Values, u: Values)
    requires
        forall|k: int|
            0 <= k < lc.len() ==> wire((#[trigger] lc[k]).0, w) == wire(lc[k].0, u),
    ensures
        lc_eval(lc, w) == lc_eval(lc, u),
    decreases lc.len(),
{
    if lc.len() > 0 {
        let rest = lc.drop_last();
        assert forall|k: int| 0 <= k < rest.len() implies wire((#[trigger] rest[k]).0, w) == wire(
            rest[k].0,
            u,
        ) by {
            assert(rest[k] == lc[k]);
        }
        lemma_lc_eval_same(rest, w, u);
        assert(lc.last() == lc[lc.len() - 1]);
    }
}

/// More gates do not change the value of a combination.
pub proof fn lemma_lc_eval_with_inputs(lc: Lc, w: Values, l: int, r: int, m: nat)
    requires
        lc_in(lc, w.a_l.len(), m),
        w.a_l.len() == w.a_r.len() == w.a_o.len(),
    ensures
        lc_eval(lc, with_inputs(w, l, r)) == lc_eval(lc, w),
{
    let u = with_inputs(w, l, r);
    assert forall|k: int| 0 <= k < lc.len() implies wire((#[trigger] lc[k]).0, w) == wire(
        lc[k].0,
        u,
    ) by {
        assert(var_in(lc[k].0, w.a_l.len(), m));
    }
    lemma_lc_eval_same(lc, w, u);
}

// ─── constraint systems ─────────────────────────────────────────────────────

/// What building a circuit leaves alone: the generators, the transcript, and what
/// was committed to.
pub struct Context {
    pub gens: BpGens,
    pub log: Seq<TranscriptEvent>,
    /// The blinding factors, for the prover.
    pub blindings: Seq<int>,
    /// The commitments, for the verifier.
    pub commitments: Seq<GoutPoint>,
}

/// What prover and verifier offer to build a circuit with.
pub trait ConstraintSystem {
    /// Generators, transcript and commitments.
    spec fn context(&self) -> Context;

    /// The circuit so far.
    spec fn circuit(&self) -> Circuit;

    /// The values on the wires, for the prover.
    spec fn values(&self) -> Option<Values>;

    /// The parts of the system fit together.
    spec fn well_formed(&self) -> bool;

    /// Of a well-formed system: the constraints use wires that exist, the values
    /// are reduced, there is one for every wire, and the gates hold.
    proof fn lemma_well_formed(&self)
        requires
            self.well_formed(),
        ensures
            circuit_ok(self.circuit()),
            self.values() matches Some(w) ==> values_fit(self.circuit(), w) && gates_hold(w)
                && values_reduced(w),
    ;

    /// Allocates a multiplication gate whose inputs are constrained to be `left`
    /// and `right`. Returns the three wires.
    fn multiply(
        &mut self,
        left: LinearCombination,
        right: LinearCombination,
    ) -> (r: (Variable, Variable, Variable))
        requires
            old(self).well_formed(),
            old(self).circuit().n_mul < usize::MAX,
            lc_in(left@, old(self).circuit().n_mul, old(self).circuit().n_committed),
            lc_in(right@, old(self).circuit().n_mul, old(self).circuit().n_committed),
        ensures
            final(self).well_formed(),
            final(self).context() == old(self).context(),
            r == next_gate(old(self).circuit()),
            final(self).circuit() == with_constraint(
                with_constraint(
                    with_gate(old(self).circuit()),
                    left@.push((r.0, minus_one())),
                ),
                right@.push((r.1, minus_one())),
            ),
            final(self).values() == (match old(self).values() {
                Some(w) => Some(
                    with_inputs(
                        w,
                        lc_eval(left@, w) % fp_order(),
                        lc_eval(right@, w) % fp_order(),
                    ),
                ),
                None => None,
            }),
    ;

    /// Allocates a multiplication gate whose inputs are free. The prover gives
    /// their values; the verifier passes `None`. Returns the three wires.
    fn allocate_multiplier(&mut self, assignment: Option<(Fp, Fp)>) -> (r: Result<
        (Variable, Variable, Variable),
        String,
    >)
        requires
            old(self).well_formed(),
            old(self).circuit().n_mul < usize::MAX,
        ensures
            final(self).well_formed(),
            final(self).context() == old(self).context(),
            match r {
                Ok(vars) => {
                    &&& old(self).values() is Some ==> assignment is Some
                    &&& vars == next_gate(old(self).circuit())
                    &&& final(self).circuit() == with_gate(old(self).circuit())
                    &&& final(self).values() == (match old(self).values() {
                        Some(w) => Some(with_inputs(w, (assignment->Some_0).0@, (assignment->Some_0).1@)),
                        None => None,
                    })
                },
                Err(e) => {
                    &&& old(self).values() is Some && assignment is None
                    &&& e@ == "prover requires assignment"@
                    &&& final(self).circuit() == old(self).circuit()
                    &&& final(self).values() == old(self).values()
                },
            },
    ;

    /// Adds the linear constraint `lc == 0`.
    fn constrain(&mut self, lc: LinearCombination)
        requires
            old(self).well_formed(),
            lc_in(lc@, old(self).circuit().n_mul, old(self).circuit().n_committed),
        ensures
            final(self).well_formed(),
            final(self).context() == old(self).context(),
            final(self).circuit() == with_constraint(old(self).circuit(), lc@),
            final(self).values() == old(self).values(),
    ;

    /// Number of multiplication gates so far.
    fn num_multipliers(&self) -> (r: usize)
        requires
            self.well_formed(),
        ensures
            r == self.circuit().n_mul,
    ;

    /// The value of a linear combination: `None` for the verifier.
    fn eval(&self, lc: &LinearCombination) -> (r: Option<Fp>)
        requires
            self.well_formed(),
            lc_in(lc@, self.circuit().n_mul, self.circuit().n_committed),
        ensures
            match (r, self.values()) {
                (Some(v), Some(w)) => v@ == lc_eval(lc@, w) % fp_order(),
                (None, None) => true,
                _ => false,
            },
    ;
}

/// Every value is reduced.
pub open spec fn values_reduced(w: Values) -> bool {
    &&& forall|i: int| 0 <= i < w.a_l.len() ==> 0 <= #[trigger] w.a_l[i] < fp_order()
    &&& forall|i: int| 0 <= i < w.a_r.len() ==> 0 <= #[trigger] w.a_r[i] < fp_order()
    &&& forall|i: int| 0 <= i < w.a_o.len() ==> 0 <= #[trigger] w.a_o[i] < fp_order()
    &&& forall|j: int| 0 <= j < w.v.len() ==> 0 <= #[trigger] w.v[j] < fp_order()
}

/// Witness assignments of the prover.
#[derive(Debug, Default)]
pub struct Assignments {
    pub a_l: Vec<Fp>,
    pub a_r: Vec<Fp>,
    pub a_o: Vec<Fp>,
    pub v: Vec<Fp>,
}

impl View for Assignments {
    type V = Values;

    open spec fn view(&self) -> Values {
        Values {
            a_l: fps(self.a_l@),
            a_r: fps(self.a_r@),
            a_o: fps(self.a_o@),
            v: fps(self.v@),
        }
    }
}

impl Assignments {
    /// No values yet.
    pub fn new() -> (r: Self)
        ensures
            r.a_l@.len() == 0,
            r.a_r@.len() == 0,
            r.a_o@.len() == 0,
            r.v@.len() == 0,
    {
        Assignments { a_l: Vec::new(), a_r: Vec::new(), a_o: Vec::new(), v: Vec::new() }
    }

    /// The value of a linear combination.
    pub fn eval(&self, lc: &LinearCombination) -> (r: Fp)
        requires
            self.a_l@.len() == self.a_r@.len() == self.a_o@.len(),
            lc_in(lc@, self.a_l@.len(), self.v@.len()),
        ensures
            r@ == lc_eval(lc@, self@) % fp_order(),
    {
        let mut acc = Fp::zero();
        let mut i: usize = 0;
        let ghost m = fp_order();
        proof {
            lemma_fp_order();
            lemma_mod_reduced(0, m);
            assert(lc@.take(0) =~= Seq::<(Variable, int)>::empty());
        }
        while i < lc.terms.len()
            invariant
                i <= lc.terms@.len(),
                m == fp_order(),
                m > 1,
                self.a_l@.len() == self.a_r@.len() == self.a_o@.len(),
                lc_in(lc@, self.a_l@.len(), self.v@.len()),
                acc@ == lc_eval(lc@.take(i as int), self@) % m,
            decreases lc.terms@.len() - i,
        {
            let (var, c) = lc.terms[i];
            assert(var_in(lc@[i as int].0, self.a_l@.len(), self.v@.len()));
            let ghost acc0 = acc@;
            let x = match var {
                Variable::Committed(j) => self.v[j],
                Variable::MultiplierLeft(j) => self.a_l[j],
                Variable::MultiplierRight(j) => self.a_r[j],
                Variable::MultiplierOutput(j) => self.a_o[j],
                Variable::One => Fp::one(),
            };
            let cx = c * x;
            acc = acc + cx;
            proof {
                assert(x@ == wire(var, self@));
                let pre = lc@.take(i as int);
                assert(lc@.take(i + 1).drop_last() =~= pre);
                assert(lc@.take(i + 1).last() == (var, c@));
                lemma_cong_mod(lc_eval(pre, self@), m);
                lemma_cong_mod(c@ * x@, m);
                lemma_cong_add(acc0, lc_eval(pre, self@), cx@, c@ * x@, m);
            }
            i = i + 1;
        }
        assert(lc@.take(i as int) =~= lc@);
        acc
    }
}

// ─── flattening ─────────────────────────────────────────────────────────────

/// The linear constraints, weighted with the powers of a challenge `z` and added
/// up: `W_L^T z, W_R^T z, W_O^T z, W_V^T z, <z, c>`.
#[derive(Debug)]
pub struct FlattenedConstraints {
    pub w_l: Vec<Fp>,
    pub w_r: Vec<Fp>,
    pub w_o: Vec<Fp>,
    pub w_v: Vec<Fp>,
    pub w_c: Fp,
}

/// The flattened constraints of a system with `n` gates and `m` committed values:
/// `W_V` and `c` stand on the other side of the equations and are negated.
pub open spec fn flattened(
    f: FlattenedConstraints,
    constraints: Seq<Lc>,
    n: nat,
    m: nat,
    z: int,
) -> bool {
    &&& f.w_l@.len() == n
    &&& f.w_r@.len() == n
    &&& f.w_o@.len() == n
    &&& f.w_v@.len() == m
    &&& forall|i: int|
        0 <= i < n ==> (#[trigger] f.w_l@[i])@ == flat(
            constraints,
            Variable::MultiplierLeft(i as usize),
            z,
        ) % fp_order()
    &&& forall|i: int|
        0 <= i < n ==> (#[trigger] f.w_r@[i])@ == flat(
            constraints,
            Variable::MultiplierRight(i as usize),
            z,
        ) % fp_order()
    &&& forall|i: int|
        0 <= i < n ==> (#[trigger] f.w_o@[i])@ == flat(
            constraints,
            Variable::MultiplierOutput(i as usize),
            z,
        ) % fp_order()
    &&& forall|j: int|
        0 <= j < m ==> (#[trigger] f.w_v@[j])@ == (-flat(
            constraints,
            Variable::Committed(j as usize),
            z,
        )) % fp_order()
    &&& f.w_c@ == (-flat(constraints, Variable::One, z)) % fp_order()
}

/// The views of a list of linear combinations.
pub open spec fn lcs(s: Seq<LinearCombination>) -> Seq<Lc> {
    Seq::new(s.len(), |q: int| s[q]@)
}

/// What the loops of [`flatten`] have added up: the constraints `done`, and of the
/// next one the terms `part`.
spec fn partial(done: Seq<Lc>, part: Lc, var: Variable, z: int) -> int {
    flat(done, var, z) + coeff(part, var) * pow(z, (done.len() + 1) as nat)
}

spec fn partially_flattened(
    w_l: Seq<Fp>,
    w_r: Seq<Fp>,
    w_o: Seq<Fp>,
    w_v: Seq<Fp>,
    w_c: Fp,
    done: Seq<Lc>,
    part: Lc,
    z: int,
) -> bool {
    &&& forall|i: int|
        0 <= i < w_l.len() ==> (#[trigger] w_l[i])@ == partial(
            done,
            part,
            Variable::MultiplierLeft(i as usize),
            z,
        ) % fp_order()
    &&& forall|i: int|
        0 <= i < w_r.len() ==> (#[trigger] w_r[i])@ == partial(
            done,
            part,
            Variable::MultiplierRight(i as usize),
            z,
        ) % fp_order()
    &&& forall|i: int|
        0 <= i < w_o.len() ==> (#[trigger] w_o[i])@ == partial(
            done,
            part,
            Variable::MultiplierOutput(i as usize),
            z,
        ) % fp_order()
    &&& forall|j: int|
        0 <= j < w_v.len() ==> (#[trigger] w_v[j])@ == (-partial(
            done,
            part,
            Variable::Committed(j as usize),
            z,
        )) % fp_order()
    &&& w_c@ == (-partial(done, part, Variable::One, z)) % fp_order()
}

/// One more term changes the sum of its own wire only.
proof fn lemma_partial_push(done: Seq<Lc>, part: Lc, t: (Variable, int), var: Variable, z: int)
    ensures
        partial(done, part.push(t), var, z) == partial(done, part, var, z) + (if t.0 == var {
            t.1 * pow(z, (done.len() + 1) as nat)
        } else {
            0
        }),
{
    let p = pow(z, (done.len() + 1) as nat);
    assert(part.push(t).drop_last() =~= part);
    let (c, d) = (coeff(part, var), t.1);
    assert((c + d) * p == c * p + d * p) by (nonlinear_arith);
}

/// `n` zeros.
pub fn zeros(n: usize) -> (r: Vec<Fp>)
    ensures
        r@.len() == n,
        forall|i: int| 0 <= i < n ==> (#[trigger] r@[i])@ == 0,
{
    let mut out: Vec<Fp> = Vec::with_capacity(n);
    let mut i: usize = 0;
    while i < n
        invariant
            i <= n,
            out@.len() == i,
            forall|k: int| 0 <= k < i ==> (#[trigger] out@[k])@ == 0,
        decreases n - i,
    {
        out.push(Fp::zero());
        i = i + 1;
    }
    out
}

/// Flattens a list of constraints by `z^1, z^2, …, z^Q`.
///
/// Each constraint has the row form `⟨W_L, a_L⟩ + ⟨W_R, a_R⟩ + ⟨W_O, a_O⟩ = ⟨W_V, v⟩ + c`,
/// so the coefficients of committed values and of the constant are negated when
/// they are collected into `w_v` and `w_c`.
pub fn flatten(constraints: &[LinearCombination], n: usize, m: usize, z: Fp) -> (r:
    FlattenedConstraints)
    requires
        forall|q: int|
            0 <= q < constraints@.len() ==> lc_in((#[trigger] constraints@[q])@, n as nat, m as nat),
    ensures
        flattened(r, lcs(constraints@), n as nat, m as nat, z@),
{
    let mut w_l = zeros(n);
    let mut w_r = zeros(n);
    let mut w_o = zeros(n);
    let mut w_v = zeros(m);
    let mut w_c = Fp::zero();
    let mut zq = z;
    let mut q: usize = 0;
    let ghost all = lcs(constraints@);
    let ghost p = fp_order();
    let ghost none = Seq::<(Variable, int)>::empty();
    proof {
        lemma_fp_order();
        lemma_mod_reduced(0, p);
        lemma_pow1(z@);
        lemma_fp_range(z);
        lemma_mod_reduced(z@, p);
        assert(all.take(0) =~= Seq::<Lc>::empty());
        assert forall|var: Variable| #[trigger] partial(all.take(0), none, var, z@) == 0 by {
            let e = pow(z@, 1);
            assert(0 * e == 0);
        }
    }
    while q < constraints.len()
        invariant
            q <= constraints@.len(),
            all == lcs(constraints@),
            p == fp_order(),
            p > 1,
            none == Seq::<(Variable, int)>::empty(),
            forall|k: int|
                0 <= k < constraints@.len() ==> lc_in(
                    (#[trigger] constraints@[k])@,
                    n as nat,
                    m as nat,
                ),
            w_l@.len() == n,
            w_r@.len() == n,
            w_o@.len() == n,
            w_v@.len() == m,
            zq@ == pow(z@, (q + 1) as nat) % p,
            partially_flattened(
                w_l@,
                w_r@,
                w_o@,
                w_v@,
                w_c,
                all.take(q as int),
                none,
                z@,
            ),
        decreases constraints@.len() - q,
    {
        let lc = &constraints[q];
        let ghost done = all.take(q as int);
        let mut k: usize = 0;
        proof {
            assert(lc@.take(0) =~= none);
        }
        while k < lc.terms.len()
            invariant
                k <= lc.terms@.len(),
                p == fp_order(),
                p > 1,
                done.len() == q,
                lc_in(lc@, n as nat, m as nat),
                w_l@.len() == n,
                w_r@.len() == n,
                w_o@.len() == n,
                w_v@.len() == m,
                zq@ == pow(z@, (q + 1) as nat) % p,
                partially_flattened(
                    w_l@,
                    w_r@,
                    w_o@,
                    w_v@,
                    w_c,
                    done,
                    lc@.take(k as int),
                    z@,
                ),
            decreases lc.terms@.len() - k,
        {
            let (var, c) = lc.terms[k];
            assert(var_in(lc@[k as int].0, n as nat, m as nat));
            let cz = c * zq;
            let ghost part = lc@.take(k as int);
            let ghost (l0, r0, o0, v0, c0) = (w_l@, w_r@, w_o@, w_v@, w_c);
            let ghost e = c@ * pow(z@, (q + 1) as nat);
            proof {
                assert(lc@.take(k + 1) =~= part.push((var, c@)));
                lemma_cong_mod(pow(z@, (q + 1) as nat), p);
                lemma_cong_mul(c@, c@, zq@, pow(z@, (q + 1) as nat), p);
                lemma_cong_mod(c@ * zq@, p);
                assert forall|x: Variable|
                    #[trigger] partial(done, part.push((var, c@)), x, z@) == partial(
                        done,
                        part,
                        x,
                        z@,
                    ) + (if var == x {
                        e
                    } else {
                        0
                    }) by {
                    lemma_partial_push(done, part, (var, c@), x, z@);
                }
                let old_sum = partial(done, part, var, z@);
                lemma_cong_mod(old_sum, p);
                lemma_cong_mod(-old_sum, p);
                lemma_cong_add(old_sum % p, old_sum, cz@, e, p);
                lemma_cong_sub((-old_sum) % p, -old_sum, cz@, e, p);
            }
            match var {
                Variable::MultiplierLeft(i) => {
                    let x = w_l[i] + cz;
                    w_l.set(i, x);
                },
                Variable::MultiplierRight(i) => {
                    let x = w_r[i] + cz;
                    w_r.set(i, x);
                },
                Variable::MultiplierOutput(i) => {
                    let x = w_o[i] + cz;
                    w_o.set(i, x);
                },
                Variable::Committed(j) => {
                    let x = w_v[j] - cz;
                    w_v.set(j, x);
                },
                Variable::One => {
                    w_c = w_c - cz;
                },
            }
            k = k + 1;
        }
        let ghost zq0 = zq@;
        zq = zq * z;
        proof {
            assert(lc@.take(k as int) =~= lc@);
            let nxt = all.take(q + 1);
            assert(nxt.drop_last() =~= done);
            assert(nxt.last() == lc@);
            assert forall|x: Variable| #[trigger] partial(nxt, none, x, z@) == partial(
                done,
                lc@,
                x,
                z@,
            ) by {
                let e = pow(z@, (nxt.len() + 1) as nat);
                assert(0 * e == 0);
            }
            let e = pow(z@, (q + 1) as nat);
            lemma_pow_succ(z@, (q + 1) as nat);
            lemma_cong_mod(e, p);
            lemma_cong_mul(zq0, e, z@, z@, p);
        }
        q = q + 1;
    }
    proof {
        assert(all.take(q as int) =~= all);
        assert forall|x: Variable| #[trigger] partial(all, none, x, z@) == flat(all, x, z@) by {
            let e = pow(z@, (all.len() + 1) as nat);
            assert(0 * e == 0);
        }
    }
    FlattenedConstraints { w_l, w_r, w_o, w_v, w_c }
}

// ─── what flattening means ──────────────────────────────────────────────────

/// `∑ f(x)·(value of x)` over all wires `x` of a system with `n` gates and `m`
/// committed values.
pub open spec fn weigh(f: spec_fn(Variable) -> int, w: Values, n: nat, m: nat) -> int {
    sigma(n, |i: int| f(Variable::MultiplierLeft(i as usize)) * w.a_l[i]) + sigma(
        n,
        |i: int| f(Variable::MultiplierRight(i as usize)) * w.a_r[i],
    ) + sigma(n, |i: int| f(Variable::MultiplierOutput(i as usize)) * w.a_o[i]) + sigma(
        m,
        |j: int| f(Variable::Committed(j as usize)) * w.v[j],
    ) + f(Variable::One)
}

/// `∑_q z^{q+1} · (value of constraint q)`, not reduced.
pub open spec fn flat_eval(constraints: Seq<Lc>, w: Values, z: int) -> int
    decreases constraints.len(),
{
    if constraints.len() == 0 {
        0
    } else {
        flat_eval(constraints.drop_last(), w, z) + lc_eval(constraints.last(), w) * pow(
            z,
            constraints.len(),
        )
    }
}

proof fn lemma_weigh_eq(
    f: spec_fn(Variable) -> int,
    g: spec_fn(Variable) -> int,
    w: Values,
    n: nat,
    m: nat,
)
    requires
        forall|x: Variable| #[trigger] f(x) == g(x),
    ensures
        weigh(f, w, n, m) == weigh(g, w, n, m),
{
    lemma_sigma_eq(
        n,
        |i: int| f(Variable::MultiplierLeft(i as usize)) * w.a_l[i],
        |i: int| g(Variable::MultiplierLeft(i as usize)) * w.a_l[i],
    );
    lemma_sigma_eq(
        n,
        |i: int| f(Variable::MultiplierRight(i as usize)) * w.a_r[i],
        |i: int| g(Variable::MultiplierRight(i as usize)) * w.a_r[i],
    );
    lemma_sigma_eq(
        n,
        |i: int| f(Variable::MultiplierOutput(i as usize)) * w.a_o[i],
        |i: int| g(Variable::MultiplierOutput(i as usize)) * w.a_o[i],
    );
    lemma_sigma_eq(
        m,
        |j: int| f(Variable::Committed(j as usize)) * w.v[j],
        |j: int| g(Variable::Committed(j as usize)) * w.v[j],
    );
}

/// `σ (f + c·g)·v = σ f·v + c·σ g·v`.
proof fn lemma_sigma_axpy(
    n: nat,
    f: spec_fn(int) -> int,
    g: spec_fn(int) -> int,
    v: Seq<int>,
    c: int,
)
    ensures
        sigma(n, |i: int| (f(i) + g(i) * c) * v[i]) == sigma(n, |i: int| f(i) * v[i]) + sigma(
            n,
            |i: int| g(i) * v[i],
        ) * c,
    decreases n,
{
    if n > 0 {
        lemma_sigma_axpy((n - 1) as nat, f, g, v, c);
        let (a, b, x) = (f(n - 1), g(n - 1), v[n - 1]);
        let s = sigma((n - 1) as nat, |i: int| g(i) * v[i]);
        assert((a + b * c) * x + s * c == a * x + (s + b * x) * c) by (nonlinear_arith);
    } else {
        assert(0 * c == 0);
    }
}

proof fn lemma_weigh_axpy(
    f: spec_fn(Variable) -> int,
    g: spec_fn(Variable) -> int,
    c: int,
    w: Values,
    n: nat,
    m: nat,
)
    ensures
        weigh(|x: Variable| f(x) + g(x) * c, w, n, m) == weigh(f, w, n, m) + weigh(g, w, n, m) * c,
{
    let h = |x: Variable| f(x) + g(x) * c;
    let fl = |i: int| f(Variable::MultiplierLeft(i as usize));
    let gl = |i: int| g(Variable::MultiplierLeft(i as usize));
    let fr = |i: int| f(Variable::MultiplierRight(i as usize));
    let gr = |i: int| g(Variable::MultiplierRight(i as usize));
    let fo = |i: int| f(Variable::MultiplierOutput(i as usize));
    let go = |i: int| g(Variable::MultiplierOutput(i as usize));
    let fv = |i: int| f(Variable::Committed(i as usize));
    let gv = |i: int| g(Variable::Committed(i as usize));
    lemma_sigma_axpy(n, fl, gl, w.a_l, c);
    lemma_sigma_axpy(n, fr, gr, w.a_r, c);
    lemma_sigma_axpy(n, fo, go, w.a_o, c);
    lemma_sigma_axpy(m, fv, gv, w.v, c);
    lemma_sigma_eq(
        n,
        |i: int| h(Variable::MultiplierLeft(i as usize)) * w.a_l[i],
        |i: int| (fl(i) + gl(i) * c) * w.a_l[i],
    );
    lemma_sigma_eq(
        n,
        |i: int| h(Variable::MultiplierRight(i as usize)) * w.a_r[i],
        |i: int| (fr(i) + gr(i) * c) * w.a_r[i],
    );
    lemma_sigma_eq(
        n,
        |i: int| h(Variable::MultiplierOutput(i as usize)) * w.a_o[i],
        |i: int| (fo(i) + go(i) * c) * w.a_o[i],
    );
    lemma_sigma_eq(
        m,
        |i: int| h(Variable::Committed(i as usize)) * w.v[i],
        |i: int| (fv(i) + gv(i) * c) * w.v[i],
    );
    lemma_sigma_eq(
        n,
        |i: int| f(Variable::MultiplierLeft(i as usize)) * w.a_l[i],
        |i: int| fl(i) * w.a_l[i],
    );
    lemma_sigma_eq(
        n,
        |i: int| g(Variable::MultiplierLeft(i as usize)) * w.a_l[i],
        |i: int| gl(i) * w.a_l[i],
    );
    lemma_sigma_eq(
        n,
        |i: int| f(Variable::MultiplierRight(i as usize)) * w.a_r[i],
        |i: int| fr(i) * w.a_r[i],
    );
    lemma_sigma_eq(
        n,
        |i: int| g(Variable::MultiplierRight(i as usize)) * w.a_r[i],
        |i: int| gr(i) * w.a_r[i],
    );
    lemma_sigma_eq(
        n,
        |i: int| f(Variable::MultiplierOutput(i as usize)) * w.a_o[i],
        |i: int| fo(i) * w.a_o[i],
    );
    lemma_sigma_eq(
        n,
        |i: int| g(Variable::MultiplierOutput(i as usize)) * w.a_o[i],
        |i: int| go(i) * w.a_o[i],
    );
    lemma_sigma_eq(
        m,
        |j: int| f(Variable::Committed(j as usize)) * w.v[j],
        |i: int| fv(i) * w.v[i],
    );
    lemma_sigma_eq(
        m,
        |j: int| g(Variable::Committed(j as usize)) * w.v[j],
        |i: int| gv(i) * w.v[i],
    );
    let (a, b, d, e, o) = (
        sigma(n, |i: int| gl(i) * w.a_l[i]),
        sigma(n, |i: int| gr(i) * w.a_r[i]),
        sigma(n, |i: int| go(i) * w.a_o[i]),
        sigma(m, |i: int| gv(i) * w.v[i]),
        g(Variable::One),
    );
    assert((a + b + d + e + o) * c == a * c + b * c + d * c + e * c + o * c) by (nonlinear_arith);
}

/// A sum with one term that is not zero.
proof fn lemma_sigma_single(n: nat, f: spec_fn(int) -> int, k: int)
    requires
        0 <= k < n,
        forall|i: int| 0 <= i < n && i != k ==> #[trigger] f(i) == 0,
    ensures
        sigma(n, f) == f(k),
    decreases n,
{
    if k == n - 1 {
        lemma_sigma_zero((n - 1) as nat, f);
    } else {
        lemma_sigma_single((n - 1) as nat, f, k);
        assert(f(n - 1) == 0);
    }
}

/// Weighing a single wire gives its value.
proof fn lemma_weigh_single(x: Variable, w: Values, n: nat, m: nat)
    requires
        var_in(x, n, m),
        n <= usize::MAX,
        m <= usize::MAX,
    ensures
        weigh(
            |y: Variable|
                if x == y {
                    1
                } else {
                    0
                },
            w,
            n,
            m,
        ) == wire(x, w),
{
    let f = |y: Variable|
        if x == y {
            1int
        } else {
            0
        };
    let sl = |i: int| f(Variable::MultiplierLeft(i as usize)) * w.a_l[i];
    let sr = |i: int| f(Variable::MultiplierRight(i as usize)) * w.a_r[i];
    let so = |i: int| f(Variable::MultiplierOutput(i as usize)) * w.a_o[i];
    let sv = |j: int| f(Variable::Committed(j as usize)) * w.v[j];
    assert forall|i: int| 0 <= i < n && x != Variable::MultiplierLeft(i as usize) implies
        #[trigger] sl(i) == 0 by {
        let a = w.a_l[i];
        assert(0 * a == 0);
    }
    assert forall|i: int| 0 <= i < n && x != Variable::MultiplierRight(i as usize) implies
        #[trigger] sr(i) == 0 by {
        let a = w.a_r[i];
        assert(0 * a == 0);
    }
    assert forall|i: int| 0 <= i < n && x != Variable::MultiplierOutput(i as usize) implies
        #[trigger] so(i) == 0 by {
        let a = w.a_o[i];
        assert(0 * a == 0);
    }
    assert forall|i: int| 0 <= i < m && x != Variable::Committed(i as usize) implies
        #[trigger] sv(i) == 0 by {
        let a = w.v[i];
        assert(0 * a == 0);
    }
    match x {
        Variable::MultiplierLeft(k) => {
            lemma_sigma_single(n, sl, k as int);
            lemma_sigma_zero(n, sr);
            lemma_sigma_zero(n, so);
            lemma_sigma_zero(m, sv);
            let a = w.a_l[k as int];
            assert(1 * a == a);
        },
        Variable::MultiplierRight(k) => {
            lemma_sigma_single(n, sr, k as int);
            lemma_sigma_zero(n, sl);
            lemma_sigma_zero(n, so);
            lemma_sigma_zero(m, sv);
            let a = w.a_r[k as int];
            assert(1 * a == a);
        },
        Variable::MultiplierOutput(k) => {
            lemma_sigma_single(n, so, k as int);
            lemma_sigma_zero(n, sl);
            lemma_sigma_zero(n, sr);
            lemma_sigma_zero(m, sv);
            let a = w.a_o[k as int];
            assert(1 * a == a);
        },
        Variable::Committed(k) => {
            lemma_sigma_single(m, sv, k as int);
            lemma_sigma_zero(n, sl);
            lemma_sigma_zero(n, sr);
            lemma_sigma_zero(n, so);
            let a = w.v[k as int];
            assert(1 * a == a);
        },
        Variable::One => {
            lemma_sigma_zero(n, sl);
            lemma_sigma_zero(n, sr);
            lemma_sigma_zero(n, so);
            lemma_sigma_zero(m, sv);
        },
    }
}

proof fn lemma_weigh_zero(f: spec_fn(Variable) -> int, w: Values, n: nat, m: nat)
    requires
        forall|x: Variable| #[trigger] f(x) == 0,
    ensures
        weigh(f, w, n, m) == 0,
{
    let sl = |i: int| f(Variable::MultiplierLeft(i as usize)) * w.a_l[i];
    let sr = |i: int| f(Variable::MultiplierRight(i as usize)) * w.a_r[i];
    let so = |i: int| f(Variable::MultiplierOutput(i as usize)) * w.a_o[i];
    let sv = |j: int| f(Variable::Committed(j as usize)) * w.v[j];
    assert forall|i: int| #[trigger] sl(i) == 0 by {
        let a = w.a_l[i];
        assert(0 * a == 0);
    }
    assert forall|i: int| #[trigger] sr(i) == 0 by {
        let a = w.a_r[i];
        assert(0 * a == 0);
    }
    assert forall|i: int| #[trigger] so(i) == 0 by {
        let a = w.a_o[i];
        assert(0 * a == 0);
    }
    assert forall|i: int| #[trigger] sv(i) == 0 by {
        let a = w.v[i];
        assert(0 * a == 0);
    }
    lemma_sigma_zero(n, sl);
    lemma_sigma_zero(n, sr);
    lemma_sigma_zero(n, so);
    lemma_sigma_zero(m, sv);
}

/// Weighing the wires with the coefficients of a combination gives its value.
proof fn lemma_weigh_coeff(lc: Lc, w: Values, n: nat, m: nat)
    requires
        lc_in(lc, n, m),
        n <= usize::MAX,
        m <= usize::MAX,
    ensures
        weigh(|x: Variable| coeff(lc, x), w, n, m) == lc_eval(lc, w),
    decreases lc.len(),
{
    let f = |x: Variable| coeff(lc, x);
    if lc.len() == 0 {
        lemma_weigh_zero(f, w, n, m);
    } else {
        let rest = lc.drop_last();
        let (y, c) = lc.last();
        assert(var_in(lc[lc.len() - 1].0, n, m));
        assert forall|k: int| 0 <= k < rest.len() implies var_in((#[trigger] rest[k]).0, n, m) by {
            assert(rest[k] == lc[k]);
        }
        lemma_weigh_coeff(rest, w, n, m);
        let g = |x: Variable| coeff(rest, x);
        let h = |x: Variable|
            if y == x {
                1int
            } else {
                0
            };
        lemma_weigh_axpy(g, h, c, w, n, m);
        lemma_weigh_single(y, w, n, m);
        assert forall|x: Variable| #[trigger] f(x) == g(x) + h(x) * c by {
            assert(1 * c == c && 0 * c == 0);
        }
        lemma_weigh_eq(f, |x: Variable| g(x) + h(x) * c, w, n, m);
        lemma_weigh_eq(
            h,
            |x: Variable|
                if y == x {
                    1
                } else {
                    0
                },
            w,
            n,
            m,
        );
        let v = wire(y, w);
        assert(v * c == c * v) by (nonlinear_arith);
    }
}

/// Flattening turns a list of constraints into one: weighing the wires with the
/// flattened coefficients gives the weighted sum of the constraints' values, which
/// is zero where every constraint is.
pub proof fn law_flatten(constraints: Seq<Lc>, w: Values, n: nat, m: nat, z: int)
    requires
        forall|q: int| 0 <= q < constraints.len() ==> lc_in(#[trigger] constraints[q], n, m),
        n <= usize::MAX,
        m <= usize::MAX,
    ensures
        weigh(|x: Variable| flat(constraints, x, z), w, n, m) == flat_eval(constraints, w, z),
        (forall|q: int|
            0 <= q < constraints.len() ==> cong(
                lc_eval(#[trigger] constraints[q], w),
                0,
                fp_order(),
            )) ==> cong(flat_eval(constraints, w, z), 0, fp_order()),
    decreases constraints.len(),
{
    let f = |x: Variable| flat(constraints, x, z);
    lemma_fp_order();
    if constraints.len() == 0 {
        lemma_weigh_zero(f, w, n, m);
    } else {
        let rest = constraints.drop_last();
        let lc = constraints.last();
        assert(lc == constraints[constraints.len() - 1]);
        assert(lc_in(constraints[constraints.len() - 1], n, m));
        assert forall|q: int| 0 <= q < rest.len() implies lc_in(#[trigger] rest[q], n, m) by {
            assert(rest[q] == constraints[q]);
        }
        let p = pow(z, constraints.len());
        law_flatten(rest, w, n, m, z);
        lemma_weigh_coeff(lc, w, n, m);
        let g = |x: Variable| flat(rest, x, z);
        let h = |x: Variable| coeff(lc, x);
        lemma_weigh_axpy(g, h, p, w, n, m);
        lemma_weigh_eq(f, |x: Variable| g(x) + h(x) * p, w, n, m);
        if forall|q: int|
            0 <= q < constraints.len() ==> cong(
                lc_eval(#[trigger] constraints[q], w),
                0,
                fp_order(),
            ) {
            assert(cong(lc_eval(constraints[constraints.len() - 1], w), 0, fp_order()));
            assert forall|q: int| 0 <= q < rest.len() implies cong(
                lc_eval(#[trigger] rest[q], w),
                0,
                fp_order(),
            ) by {
                assert(rest[q] == constraints[q]);
            }
            lemma_cong_mul(lc_eval(lc, w), 0, p, p, fp_order());
            assert(0 * p == 0);
            lemma_cong_add(flat_eval(rest, w, z), 0, lc_eval(lc, w) * p, 0, fp_order());
        }
    }
}

} // verus!
