//! Integer sums, powers and congruences: the arithmetic that the contracts of
//! this library are written in.
use vstd::arithmetic::div_mod::{
    lemma_add_mod_noop, lemma_mod_equivalence, lemma_mul_mod_noop, lemma_small_mod,
    lemma_sub_mod_noop,
};
use vstd::arithmetic::power::{lemma_pow0, lemma_pow1, lemma_pow_adds, pow};
use vstd::prelude::*;

verus! {

/// `a` and `b` leave the same remainder modulo `m`.
pub open spec fn cong(a: int, b: int, m: int) -> bool {
    a % m == b % m
}

/// `f(0) + f(1) + … + f(n - 1)`.
pub open spec fn sigma(n: nat, f: spec_fn(int) -> int) -> int
    decreases n,
{
    if n == 0 {
        0
    } else {
        sigma((n - 1) as nat, f) + f(n - 1)
    }
}

/// `∑ a[i] · b[i]` over the indices of `a`.
pub open spec fn dot(a: Seq<int>, b: Seq<int>) -> int {
    sigma(a.len(), |i: int| a[i] * b[i])
}

/// The polynomial with coefficients `c` (constant term first) at `z`.
pub open spec fn poly_eval(c: Seq<int>, z: int) -> int {
    sigma(c.len(), |i: int| c[i] * pow(z, i as nat))
}

/// `n` is prime: a product is a multiple of `n` only if one of its factors is.
pub open spec fn is_prime(n: int) -> bool {
    &&& n > 1
    &&& forall|a: int, b: int| #[trigger] (a * b) % n == 0 ==> a % n == 0 || b % n == 0
}

// ─── congruences ────────────────────────────────────────────────────────────

pub proof fn lemma_cong_add(a: int, b: int, c: int, d: int, m: int)
    requires
        m > 0,
        cong(a, b, m),
        cong(c, d, m),
    ensures
        cong(a + c, b + d, m),
{
    lemma_add_mod_noop(a, c, m);
    lemma_add_mod_noop(b, d, m);
}

pub proof fn lemma_cong_sub(a: int, b: int, c: int, d: int, m: int)
    requires
        m > 0,
        cong(a, b, m),
        cong(c, d, m),
    ensures
        cong(a - c, b - d, m),
{
    lemma_sub_mod_noop(a, c, m);
    lemma_sub_mod_noop(b, d, m);
}

pub proof fn lemma_cong_mul(a: int, b: int, c: int, d: int, m: int)
    requires
        m > 0,
        cong(a, b, m),
        cong(c, d, m),
    ensures
        cong(a * c, b * d, m),
{
    lemma_mul_mod_noop(a, c, m);
    lemma_mul_mod_noop(b, d, m);
}

/// Reducing a value does not change its class.
pub proof fn lemma_cong_mod(a: int, m: int)
    requires
        m > 0,
    ensures
        cong(a % m, a, m),
        0 <= a % m < m,
{
    vstd::arithmetic::div_mod::lemma_mod_twice(a, m);
    vstd::arithmetic::div_mod::lemma_mod_bound(a, m);
}

/// Two reduced values in one class are equal.
pub proof fn lemma_cong_small(a: int, b: int, m: int)
    requires
        m > 0,
        0 <= a < m,
        0 <= b < m,
        cong(a, b, m),
    ensures
        a == b,
{
    lemma_small_mod(a as nat, m as nat);
    lemma_small_mod(b as nat, m as nat);
}

pub proof fn lemma_mod_reduced(a: int, m: int)
    requires
        0 <= a < m,
    ensures
        a % m == a,
{
    lemma_small_mod(a as nat, m as nat);
}

/// Classes are equal exactly where the difference is a multiple of the modulus.
pub proof fn lemma_cong_diff(a: int, b: int, m: int)
    requires
        m > 0,
    ensures
        cong(a, b, m) <==> (a - b) % m == 0,
{
    lemma_mod_equivalence(a, b, m);
}

/// A factor with an inverse can be cancelled.
pub proof fn lemma_cong_cancel(a: int, b: int, c: int, c_inv: int, m: int)
    requires
        m > 0,
        cong(c * c_inv, 1, m),
        cong(a * c, b * c, m),
    ensures
        cong(a, b, m),
{
    lemma_cong_mul(a * c, b * c, c_inv, c_inv, m);
    assert((a * c) * c_inv == a * (c * c_inv)) by (nonlinear_arith);
    assert((b * c) * c_inv == b * (c * c_inv)) by (nonlinear_arith);
    lemma_cong_mul(a, a, c * c_inv, 1, m);
    lemma_cong_mul(b, b, c * c_inv, 1, m);
    assert(a * 1 == a && b * 1 == b);
}

pub proof fn lemma_cong_pow(a: int, b: int, e: nat, m: int)
    requires
        m > 0,
        cong(a, b, m),
    ensures
        cong(pow(a, e), pow(b, e), m),
    decreases e,
{
    if e == 0 {
        lemma_pow0(a);
        lemma_pow0(b);
    } else {
        lemma_cong_pow(a, b, (e - 1) as nat, m);
        lemma_pow_succ(a, (e - 1) as nat);
        lemma_pow_succ(b, (e - 1) as nat);
        lemma_cong_mul(pow(a, (e - 1) as nat), pow(b, (e - 1) as nat), a, b, m);
    }
}

pub proof fn lemma_pow_succ(a: int, e: nat)
    ensures
        pow(a, e + 1) == pow(a, e) * a,
{
    lemma_pow_adds(a, e, 1);
    lemma_pow1(a);
}

// ─── sums ───────────────────────────────────────────────────────────────────

/// Sums over equal terms are equal.
pub proof fn lemma_sigma_eq(n: nat, f: spec_fn(int) -> int, g: spec_fn(int) -> int)
    requires
        forall|i: int| 0 <= i < n ==> #[trigger] f(i) == g(i),
    ensures
        sigma(n, f) == sigma(n, g),
    decreases n,
{
    if n > 0 {
        lemma_sigma_eq((n - 1) as nat, f, g);
    }
}

/// Sums over congruent terms are congruent.
pub proof fn lemma_sigma_cong(n: nat, f: spec_fn(int) -> int, g: spec_fn(int) -> int, m: int)
    requires
        m > 0,
        forall|i: int| 0 <= i < n ==> cong(#[trigger] f(i), g(i), m),
    ensures
        cong(sigma(n, f), sigma(n, g), m),
    decreases n,
{
    if n > 0 {
        lemma_sigma_cong((n - 1) as nat, f, g, m);
        assert(cong(f(n - 1), g(n - 1), m));
        lemma_cong_add(
            sigma((n - 1) as nat, f),
            sigma((n - 1) as nat, g),
            f(n - 1),
            g(n - 1),
            m,
        );
    }
}

pub proof fn lemma_sigma_zero(n: nat, f: spec_fn(int) -> int)
    requires
        forall|i: int| 0 <= i < n ==> #[trigger] f(i) == 0,
    ensures
        sigma(n, f) == 0,
    decreases n,
{
    if n > 0 {
        lemma_sigma_zero((n - 1) as nat, f);
    }
}

pub proof fn lemma_sigma_add(n: nat, f: spec_fn(int) -> int, g: spec_fn(int) -> int)
    ensures
        sigma(n, |i: int| f(i) + g(i)) == sigma(n, f) + sigma(n, g),
    decreases n,
{
    if n > 0 {
        lemma_sigma_add((n - 1) as nat, f, g);
    }
}

pub proof fn lemma_sigma_sub(n: nat, f: spec_fn(int) -> int, g: spec_fn(int) -> int)
    ensures
        sigma(n, |i: int| f(i) - g(i)) == sigma(n, f) - sigma(n, g),
    decreases n,
{
    if n > 0 {
        lemma_sigma_sub((n - 1) as nat, f, g);
    }
}

pub proof fn lemma_sigma_scale(n: nat, c: int, f: spec_fn(int) -> int)
    ensures
        sigma(n, |i: int| c * f(i)) == c * sigma(n, f),
    decreases n,
{
    if n > 0 {
        lemma_sigma_scale((n - 1) as nat, c, f);
        let s = sigma((n - 1) as nat, f);
        let t = f(n - 1);
        assert(c * (s + t) == c * s + c * t) by (nonlinear_arith);
    } else {
        assert(c * 0 == 0);
    }
}

/// The first term split off.
pub proof fn lemma_sigma_first(n: nat, f: spec_fn(int) -> int)
    requires
        n > 0,
    ensures
        sigma(n, f) == f(0) + sigma((n - 1) as nat, |i: int| f(i + 1)),
    decreases n,
{
    let g = |i: int| f(i + 1);
    if n == 1 {
        assert(sigma(0, f) == 0 && sigma(0, g) == 0);
    } else {
        lemma_sigma_first((n - 1) as nat, f);
    }
}

/// A sum split at `k`.
pub proof fn lemma_sigma_split(k: nat, n: nat, f: spec_fn(int) -> int)
    requires
        k <= n,
    ensures
        sigma(n, f) == sigma(k, f) + sigma((n - k) as nat, |i: int| f(k + i)),
    decreases n,
{
    let g = |i: int| f(k + i);
    if n == k {
        assert(sigma(0, g) == 0);
    } else {
        lemma_sigma_split(k, (n - 1) as nat, f);
        assert(g(n - 1 - k) == f(n - 1));
    }
}

/// The order of two nested sums can be exchanged.
pub proof fn lemma_sigma_swap(n: nat, m: nat, f: spec_fn(int, int) -> int)
    ensures
        sigma(n, |i: int| sigma(m, |j: int| f(i, j))) == sigma(
            m,
            |j: int| sigma(n, |i: int| f(i, j)),
        ),
    decreases n,
{
    let rows = |i: int| sigma(m, |j: int| f(i, j));
    let cols = |j: int| sigma(n, |i: int| f(i, j));
    if n == 0 {
        lemma_sigma_zero(m, cols);
    } else {
        let prev = |j: int| sigma((n - 1) as nat, |i: int| f(i, j));
        let last = |j: int| f(n - 1, j);
        lemma_sigma_swap((n - 1) as nat, m, f);
        lemma_sigma_add(m, prev, last);
        lemma_sigma_eq(m, cols, |j: int| prev(j) + last(j));
    }
}

// ─── dot products ───────────────────────────────────────────────────────────

pub proof fn lemma_dot_push(a: Seq<int>, b: Seq<int>, x: int, y: int)
    requires
        a.len() == b.len(),
    ensures
        dot(a.push(x), b.push(y)) == dot(a, b) + x * y,
{
    let n = a.len();
    let f = |i: int| a[i] * b[i];
    let g = |i: int| a.push(x)[i] * b.push(y)[i];
    lemma_sigma_eq(n, f, g);
    assert(g(n as int) == x * y);
}

pub proof fn lemma_dot_concat(a: Seq<int>, b: Seq<int>, c: Seq<int>, d: Seq<int>)
    requires
        a.len() == b.len(),
        c.len() == d.len(),
    ensures
        dot(a + c, b + d) == dot(a, b) + dot(c, d),
{
    let f = |i: int| (a + c)[i] * (b + d)[i];
    let k = a.len();
    lemma_sigma_split(k, k + c.len(), f);
    lemma_sigma_eq(k, f, |i: int| a[i] * b[i]);
    lemma_sigma_eq(c.len(), |i: int| f(k + i), |i: int| c[i] * d[i]);
}

/// One step of Horner's rule: the polynomial with a coefficient put in front.
pub proof fn lemma_poly_eval_cons(c0: int, c: Seq<int>, z: int)
    ensures
        poly_eval(seq![c0] + c, z) == poly_eval(c, z) * z + c0,
{
    let d = seq![c0] + c;
    let f = |i: int| d[i] * pow(z, i as nat);
    let g = |i: int| c[i] * pow(z, i as nat);
    lemma_sigma_first(d.len(), f);
    lemma_pow0(z);
    assert(f(0) == c0) by {
        assert(d[0] == c0);
        assert(c0 * 1 == c0);
    }
    assert forall|i: int| 0 <= i < c.len() implies f(i + 1) == z * #[trigger] g(i) by {
        assert(d[i + 1] == c[i]);
        lemma_pow_succ(z, i as nat);
        let p = pow(z, i as nat);
        let ci = c[i];
        assert(ci * (p * z) == z * (ci * p)) by (nonlinear_arith);
    }
    lemma_sigma_eq(c.len(), |i: int| f(i + 1), |i: int| z * g(i));
    lemma_sigma_scale(c.len(), z, g);
    assert(z * sigma(c.len(), g) == sigma(c.len(), g) * z) by (nonlinear_arith);
}

/// Congruent coefficients and points give congruent values.
pub proof fn lemma_poly_eval_cong(c: Seq<int>, d: Seq<int>, z: int, w: int, m: int)
    requires
        m > 0,
        c.len() == d.len(),
        forall|i: int| 0 <= i < c.len() ==> cong(#[trigger] c[i], d[i], m),
        cong(z, w, m),
    ensures
        cong(poly_eval(c, z), poly_eval(d, w), m),
{
    let f = |i: int| c[i] * pow(z, i as nat);
    let g = |i: int| d[i] * pow(w, i as nat);
    assert forall|i: int| 0 <= i < c.len() implies cong(#[trigger] f(i), g(i), m) by {
        assert(cong(c[i], d[i], m));
        lemma_cong_pow(z, w, i as nat, m);
        lemma_cong_mul(c[i], d[i], pow(z, i as nat), pow(w, i as nat), m);
    }
    lemma_sigma_cong(c.len(), f, g, m);
}

} // verus!
