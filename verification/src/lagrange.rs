//! Lagrange interpolation modulo `p`, as mathematics.
use crate::algebra::{
    cong, lemma_cong_add, lemma_cong_cancel, lemma_cong_mod, lemma_cong_mul, lemma_cong_sub,
    lemma_poly_eval_cons, lemma_sigma_add, lemma_sigma_cong, lemma_sigma_eq, lemma_sigma_first,
    lemma_sigma_scale, lemma_sigma_sub, poly_eval, sigma,
};
use crate::field::{fp_order, lemma_fp_order};
use vstd::prelude::*;

verus! {

/// `d` has an inverse modulo `p`.
pub open spec fn invertible(d: int) -> bool {
    exists|v: int| cong(#[trigger] (d * v), 1, fp_order())
}

/// The inverse of `d` modulo `p`, in `[0, p)`, where it has one.
pub open spec fn inv(d: int) -> int {
    (choose|v: int| cong(#[trigger] (d * v), 1, fp_order())) % fp_order()
}

/// `∏_{x ∈ xs, x ≠ xi} (z − x)`.
pub open spec fn lagrange_num(xs: Seq<int>, xi: int, z: int) -> int
    decreases xs.len(),
{
    if xs.len() == 0 {
        1
    } else {
        lagrange_num(xs.drop_last(), xi, z) * (if xs.last() == xi {
            1
        } else {
            z - xs.last()
        })
    }
}

/// `L_i(z) = ∏_{x ∈ xs, x ≠ xi} (z − x) / (xi − x)`, not reduced.
pub open spec fn lagrange(xs: Seq<int>, xi: int, z: int) -> int {
    lagrange_num(xs, xi, z) * inv(lagrange_num(xs, xi, xi))
}

/// `∑ ys[i] · L_i(z)`, not reduced.
pub open spec fn interpolation(xs: Seq<int>, ys: Seq<int>, z: int) -> int {
    sigma(xs.len(), |i: int| ys[i] * lagrange(xs, xs[i], z))
}

/// `a` and `b` differ, by an invertible difference.
pub open spec fn apart(a: int, b: int) -> bool {
    a != b && invertible(a - b)
}

/// The nodes are pairwise apart.
pub open spec fn good_nodes(xs: Seq<int>) -> bool {
    forall|i: int, j: int|
        0 <= i < xs.len() && 0 <= j < xs.len() && i != j ==> #[trigger] apart(xs[i], xs[j])
}

pub proof fn lemma_inv(d: int)
    requires
        invertible(d),
    ensures
        cong(d * inv(d), 1, fp_order()),
        0 <= inv(d) < fp_order(),
{
    lemma_fp_order();
    let v = choose|v: int| cong(#[trigger] (d * v), 1, fp_order());
    lemma_cong_mod(v, fp_order());
    lemma_cong_mul(d, d, v % fp_order(), v, fp_order());
}

/// Inverses are unique up to congruence.
pub proof fn lemma_inv_unique(d: int, v: int)
    requires
        cong(d * v, 1, fp_order()),
    ensures
        invertible(d),
        cong(inv(d), v, fp_order()),
{
    lemma_fp_order();
    assert(invertible(d));
    lemma_inv(d);
    let m = fp_order();
    assert(inv(d) * d == d * inv(d)) by (nonlinear_arith);
    assert(v * d == d * v) by (nonlinear_arith);
    lemma_cong_cancel(inv(d), v, d, v, m);
}

/// A factor of an invertible product is invertible.
pub proof fn lemma_invertible_factor(a: int, b: int)
    requires
        invertible(a * b),
    ensures
        invertible(a),
        invertible(b),
{
    let v = choose|v: int| cong(#[trigger] ((a * b) * v), 1, fp_order());
    assert((a * b) * v == a * (b * v)) by (nonlinear_arith);
    assert((a * b) * v == b * (a * v)) by (nonlinear_arith);
    assert(cong(a * (b * v), 1, fp_order()));
    assert(cong(b * (a * v), 1, fp_order()));
}

pub proof fn lemma_invertible_product(a: int, b: int)
    requires
        invertible(a),
        invertible(b),
    ensures
        invertible(a * b),
{
    lemma_fp_order();
    let v = choose|v: int| cong(#[trigger] (a * v), 1, fp_order());
    let w = choose|w: int| cong(#[trigger] (b * w), 1, fp_order());
    lemma_cong_mul(a * v, 1, b * w, 1, fp_order());
    assert((a * v) * (b * w) == (a * b) * (v * w)) by (nonlinear_arith);
    assert(cong((a * b) * (v * w), 1, fp_order()));
}

/// The first node split off.
proof fn lemma_num_first(xs: Seq<int>, xi: int, z: int)
    requires
        xs.len() > 0,
        xs[0] != xi,
    ensures
        lagrange_num(xs, xi, z) == lagrange_num(xs.drop_first(), xi, z) * (z - xs[0]),
    decreases xs.len(),
{
    let a = xs.drop_last();
    let b = xs.drop_first();
    if xs.len() == 1 {
        assert(lagrange_num(a, xi, z) == 1 && lagrange_num(b, xi, z) == 1);
    } else {
        lemma_num_first(a, xi, z);
        assert(a.drop_first() =~= b.drop_last());
        let (p, q) = (lagrange_num(a.drop_first(), xi, z), z - xs[0]);
        let e = if xs.last() == xi {
            1
        } else {
            z - xs.last()
        };
        assert((p * q) * e == (p * e) * q) by (nonlinear_arith);
    }
}

/// A difference to another node divides the denominator.
proof fn lemma_den_factor(xs: Seq<int>, xi: int, k: int)
    requires
        0 <= k < xs.len(),
        xs[k] != xi,
        invertible(lagrange_num(xs, xi, xi)),
    ensures
        invertible(xi - xs[k]),
    decreases xs.len(),
{
    let e = if xs.last() == xi {
        1
    } else {
        xi - xs.last()
    };
    lemma_invertible_factor(lagrange_num(xs.drop_last(), xi, xi), e);
    if k < xs.len() - 1 {
        lemma_den_factor(xs.drop_last(), xi, k);
    }
}

/// Where every denominator is invertible and no node occurs twice, the nodes are
/// good.
pub proof fn lemma_good_nodes(xs: Seq<int>)
    requires
        forall|i: int, j: int| 0 <= i < j < xs.len() ==> xs[i] != xs[j],
        forall|i: int|
            0 <= i < xs.len() ==> invertible(lagrange_num(xs, #[trigger] xs[i], xs[i])),
    ensures
        good_nodes(xs),
{
    assert forall|i: int, j: int|
        0 <= i < xs.len() && 0 <= j < xs.len() && i != j implies #[trigger] apart(xs[i], xs[j]) by {
        assert(invertible(lagrange_num(xs, xs[i], xs[i])));
        assert(xs[j] != xs[i]);
        lemma_den_factor(xs, xs[i], j);
    }
}

proof fn lemma_one_invertible()
    ensures
        invertible(1),
{
    assert(cong(1int * 1int, 1, fp_order()));
}

proof fn lemma_den_invertible(xs: Seq<int>, xi: int)
    requires
        forall|k: int| 0 <= k < xs.len() && #[trigger] xs[k] != xi ==> invertible(xi - xs[k]),
    ensures
        invertible(lagrange_num(xs, xi, xi)),
    decreases xs.len(),
{
    lemma_one_invertible();
    if xs.len() > 0 {
        let a = xs.drop_last();
        assert forall|k: int| 0 <= k < a.len() && #[trigger] a[k] != xi implies invertible(
            xi - a[k],
        ) by {
            assert(xs[k] != xi);
        }
        lemma_den_invertible(a, xi);
        let e = if xs.last() == xi {
            1
        } else {
            xi - xs.last()
        };
        assert(xs[xs.len() - 1] == xs.last());
        lemma_invertible_product(lagrange_num(a, xi, xi), e);
    }
}

proof fn lemma_node_den_invertible(xs: Seq<int>, i: int)
    requires
        good_nodes(xs),
        0 <= i < xs.len(),
    ensures
        invertible(lagrange_num(xs, xs[i], xs[i])),
{
    let xi = xs[i];
    assert forall|k: int| 0 <= k < xs.len() && #[trigger] xs[k] != xi implies invertible(
        xi - xs[k],
    ) by {
        assert(apart(xs[i], xs[k]));
    }
    lemma_den_invertible(xs, xi);
}

/// `(xi − x)·L = (z − x)·L'` where `L` has one node `x` more than `L'`.
proof fn lemma_basis_step(num: int, den: int, num2: int, den2: int, xi: int, x: int, z: int)
    requires
        num == num2 * (z - x),
        den == den2 * (xi - x),
        invertible(den),
    ensures
        cong((xi - x) * (num * inv(den)), (z - x) * (num2 * inv(den2)), fp_order()),
{
    let m = fp_order();
    lemma_fp_order();
    lemma_invertible_factor(den2, xi - x);
    lemma_inv(den);
    lemma_inv(den2);
    let (i1, i2, a, b) = (inv(den), inv(den2), xi - x, z - x);
    // (den2·i2)·(a·num2·b·i1) == (num2·b·i2)·(den2·a·i1)
    let l = a * (num * i1);
    let r = b * (num2 * i2);
    assert(l * (den2 * i2) == r * (den * i1)) by {
        let ni = num * i1;
        assert((a * ni) * (den2 * i2) == (den2 * a) * (ni * i2)) by (nonlinear_arith);
        assert((num * i1) * i2 == (num * i2) * i1) by (nonlinear_arith);
        let nj = num * i2;
        assert(den * (nj * i1) == nj * (den * i1)) by (nonlinear_arith);
        assert(b * (num2 * i2) == (num2 * b) * i2) by (nonlinear_arith);
    }
    lemma_cong_mul(l, l, den2 * i2, 1, m);
    lemma_cong_mul(r, r, den * i1, 1, m);
    assert(l * 1 == l && r * 1 == r);
}

proof fn lemma_basis_drop_last(xs: Seq<int>, i: int, z: int)
    requires
        good_nodes(xs),
        0 <= i < xs.len() - 1,
    ensures
        cong(
            (xs[i] - xs.last()) * lagrange(xs, xs[i], z),
            (z - xs.last()) * lagrange(xs.drop_last(), xs[i], z),
            fp_order(),
        ),
{
    let ys = xs.drop_last();
    let n = ys.len();
    let xi = xs[i];
    assert(apart(xs[n as int], xs[i]));
    lemma_node_den_invertible(xs, i);
    lemma_basis_step(
        lagrange_num(xs, xi, z),
        lagrange_num(xs, xi, xi),
        lagrange_num(ys, xi, z),
        lagrange_num(ys, xi, xi),
        xi,
        xs.last(),
        z,
    );
}

proof fn lemma_basis_drop_first(xs: Seq<int>, i: int, z: int)
    requires
        good_nodes(xs),
        0 < i < xs.len(),
    ensures
        cong(
            (xs[i] - xs[0]) * lagrange(xs, xs[i], z),
            (z - xs[0]) * lagrange(xs.drop_first(), xs[i], z),
            fp_order(),
        ),
{
    let ys = xs.drop_first();
    let n = ys.len();
    let xi = xs[i];
    assert(apart(xs[0], xs[i]));
    lemma_num_first(xs, xi, z);
    lemma_num_first(xs, xi, xi);
    lemma_node_den_invertible(xs, i);
    lemma_basis_step(
        lagrange_num(xs, xi, z),
        lagrange_num(xs, xi, xi),
        lagrange_num(ys, xi, z),
        lagrange_num(ys, xi, xi),
        xi,
        xs[0],
        z,
    );
}

proof fn lemma_good_sub(xs: Seq<int>)
    requires
        good_nodes(xs),
        xs.len() > 0,
    ensures
        good_nodes(xs.drop_last()),
        good_nodes(xs.drop_first()),
{
    let a = xs.drop_last();
    let b = xs.drop_first();
    assert forall|i: int, j: int|
        0 <= i < a.len() && 0 <= j < a.len() && i != j implies #[trigger] apart(a[i], a[j]) by {
        assert(apart(xs[i], xs[j]));
    }
    assert forall|i: int, j: int|
        0 <= i < b.len() && 0 <= j < b.len() && i != j implies #[trigger] apart(b[i], b[j]) by {
        assert(apart(xs[i + 1], xs[j + 1]));
    }
}

proof fn lemma_single_basis(xs: Seq<int>, z: int)
    requires
        xs.len() == 1,
    ensures
        cong(lagrange(xs, xs[0], z), 1, fp_order()),
{
    reveal_with_fuel(lagrange_num, 2);
    assert(lagrange_num(xs, xs[0], z) == 1);
    assert(lagrange_num(xs, xs[0], xs[0]) == 1);
    assert(1 * 1 == 1);
    lemma_inv_unique(1, 1);
    assert(1 * inv(1) == inv(1));
}

/// `∑ (x_i − x_last)·w_i·L_i(z) = (z − x_last)·∑ w_i·L'_i(z)`, where `L'` leaves the
/// last node out.
proof fn lemma_drop_last_sum(xs: Seq<int>, w: spec_fn(int) -> int, z: int)
    requires
        good_nodes(xs),
        xs.len() > 0,
    ensures
        cong(
            sigma(xs.len(), |i: int| w(i) * ((xs[i] - xs.last()) * lagrange(xs, xs[i], z))),
            (z - xs.last()) * sigma(
                (xs.len() - 1) as nat,
                |i: int| w(i) * lagrange(xs.drop_last(), xs[i], z),
            ),
            fp_order(),
        ),
{
    let m = fp_order();
    lemma_fp_order();
    let n = (xs.len() - 1) as nat;
    let c = z - xs.last();
    let f = |i: int| w(i) * ((xs[i] - xs.last()) * lagrange(xs, xs[i], z));
    let g = |i: int| w(i) * lagrange(xs.drop_last(), xs[i], z);
    let h = |i: int| c * g(i);
    assert forall|i: int| 0 <= i < n implies cong(#[trigger] f(i), h(i), m) by {
        lemma_basis_drop_last(xs, i, z);
        let l = (xs[i] - xs.last()) * lagrange(xs, xs[i], z);
        let q = lagrange(xs.drop_last(), xs[i], z);
        lemma_cong_mul(w(i), w(i), l, c * q, m);
        let wi = w(i);
        assert(wi * (c * q) == c * (wi * q)) by (nonlinear_arith);
    }
    lemma_sigma_cong(n, f, h, m);
    lemma_sigma_scale(n, c, g);
    let (wn, ln) = (w(n as int), lagrange(xs, xs[n as int], z));
    assert(wn * (0 * ln) == 0) by (nonlinear_arith);
    assert(f(n as int) == 0);
}

/// The Lagrange basis adds up to one.
proof fn lemma_partition_of_unity(xs: Seq<int>, z: int)
    requires
        good_nodes(xs),
        xs.len() > 0,
    ensures
        cong(sigma(xs.len(), |i: int| lagrange(xs, xs[i], z)), 1, fp_order()),
    decreases xs.len(),
{
    let m = fp_order();
    lemma_fp_order();
    let n = xs.len();
    let l = |i: int| lagrange(xs, xs[i], z);
    if n == 1 {
        lemma_single_basis(xs, z);
        assert(sigma(0, l) == 0);
        assert(sigma(1, l) == l(0));
    } else {
        lemma_good_sub(xs);
        let (x0, xe) = (xs[0], xs.last());
        // ∑ (x_i − x_e) L_i ≡ z − x_e
        let fa = |i: int| (xs[i] - xe) * l(i);
        let ys = xs.drop_last();
        let one = |i: int| 1int;
        lemma_drop_last_sum(xs, one, z);
        lemma_sigma_eq(n, fa, |i: int| one(i) * ((xs[i] - xs.last()) * lagrange(xs, xs[i], z)));
        lemma_sigma_eq(
            ys.len(),
            |i: int| one(i) * lagrange(xs.drop_last(), xs[i], z),
            |i: int| lagrange(ys, ys[i], z),
        );
        lemma_partition_of_unity(ys, z);
        lemma_cong_mul(
            z - xe,
            z - xe,
            sigma(ys.len(), |i: int| lagrange(ys, ys[i], z)),
            1,
            m,
        );
        assert((z - xe) * 1 == z - xe);
        assert(cong(sigma(n, fa), z - xe, m));
        // ∑ (x_i − x_0) L_i ≡ z − x_0
        let fb = |i: int| (xs[i] - x0) * l(i);
        let vs = xs.drop_first();
        let k = (n - 1) as nat;
        let gb = |i: int| lagrange(vs, vs[i], z);
        lemma_sigma_first(n, fb);
        let l0 = l(0);
        assert(0 * l0 == 0);
        assert(fb(0) == 0);
        let fb1 = |i: int| fb(i + 1);
        let hb = |i: int| (z - x0) * gb(i);
        assert forall|i: int| 0 <= i < k implies cong(#[trigger] fb1(i), hb(i), m) by {
            lemma_basis_drop_first(xs, i + 1, z);
            assert(vs[i] == xs[i + 1]);
        }
        lemma_sigma_cong(k, fb1, hb, m);
        lemma_sigma_scale(k, z - x0, gb);
        lemma_partition_of_unity(vs, z);
        lemma_cong_mul(z - x0, z - x0, sigma(k, gb), 1, m);
        assert((z - x0) * 1 == z - x0);
        assert(cong(sigma(n, fb), z - x0, m));
        // the difference
        lemma_cong_sub(sigma(n, fa), z - xe, sigma(n, fb), z - x0, m);
        lemma_sigma_sub(n, fa, fb);
        let d = |i: int| (x0 - xe) * l(i);
        assert forall|i: int| 0 <= i < n implies fa(i) - fb(i) == #[trigger] d(i) by {
            let (x, li) = (xs[i], l(i));
            assert((x - xe) * li - (x - x0) * li == (x0 - xe) * li) by (nonlinear_arith);
        }
        lemma_sigma_eq(n, d, |i: int| fa(i) - fb(i));
        lemma_sigma_scale(n, x0 - xe, l);
        let s = sigma(n, l);
        assert(cong((x0 - xe) * s, x0 - xe, m));
        assert(apart(xs[0], xs[n - 1]));
        lemma_inv(x0 - xe);
        assert(s * (x0 - xe) == (x0 - xe) * s) by (nonlinear_arith);
        assert(1 * (x0 - xe) == x0 - xe);
        lemma_cong_cancel(s, 1, x0 - xe, inv(x0 - xe), m);
    }
}

/// `(f(x) − f(a)) / (x − a)` as a polynomial in `x`.
pub open spec fn divided(c: Seq<int>, a: int) -> Seq<int>
    decreases c.len(),
{
    if c.len() <= 1 {
        Seq::empty()
    } else {
        seq![poly_eval(c.drop_first(), a)] + divided(c.drop_first(), a)
    }
}

pub proof fn lemma_divided(c: Seq<int>, a: int, x: int)
    ensures
        poly_eval(c, x) - poly_eval(c, a) == (x - a) * poly_eval(divided(c, a), x),
        divided(c, a).len() == if c.len() == 0 {
            0
        } else {
            c.len() - 1
        },
    decreases c.len(),
{
    let q = divided(c, a);
    if c.len() == 0 {
        assert((x - a) * 0 == 0);
    } else if c.len() == 1 {
        let rest = Seq::<int>::empty();
        assert(c =~= seq![c[0]] + rest);
        lemma_poly_eval_cons(c[0], rest, x);
        lemma_poly_eval_cons(c[0], rest, a);
        assert((x - a) * 0 == 0);
        assert(0 * x == 0 && 0 * a == 0);
    } else {
        let rest = c.drop_first();
        assert(c =~= seq![c[0]] + rest);
        lemma_poly_eval_cons(c[0], rest, x);
        lemma_poly_eval_cons(c[0], rest, a);
        lemma_divided(rest, a, x);
        lemma_poly_eval_cons(poly_eval(rest, a), divided(rest, a), x);
        let (gx, ga, h) = (
            poly_eval(rest, x),
            poly_eval(rest, a),
            poly_eval(divided(rest, a), x),
        );
        assert(gx * x - ga * a == (x - a) * (h * x + ga)) by (nonlinear_arith)
            requires
                gx - ga == (x - a) * h,
        ;
    }
}

/// A polynomial with at most as many coefficients as there are nodes is given
/// back, at every point, by interpolating its values at the nodes.
pub proof fn lemma_interpolation(xs: Seq<int>, c: Seq<int>, z: int)
    requires
        good_nodes(xs),
        c.len() <= xs.len(),
    ensures
        cong(
            sigma(xs.len(), |i: int| poly_eval(c, xs[i]) * lagrange(xs, xs[i], z)),
            poly_eval(c, z),
            fp_order(),
        ),
    decreases c.len(),
{
    let m = fp_order();
    lemma_fp_order();
    let n = xs.len();
    let l = |i: int| lagrange(xs, xs[i], z);
    let f = |i: int| poly_eval(c, xs[i]) * l(i);
    if c.len() == 0 {
        assert forall|i: int| 0 <= i < n implies #[trigger] f(i) == 0 by {
            let li = l(i);
            assert(0 * li == 0);
        }
        crate::algebra::lemma_sigma_zero(n, f);
        lemma_sigma_eq(
            n,
            f,
            |i: int| poly_eval(c, xs[i]) * lagrange(xs, xs[i], z),
        );
    } else {
        lemma_good_sub(xs);
        let xe = xs.last();
        let ys = xs.drop_last();
        let q = divided(c, xe);
        let fe = poly_eval(c, xe);
        let w = |i: int| poly_eval(q, xs[i]);
        let f1 = |i: int| fe * l(i);
        let f2 = |i: int| w(i) * ((xs[i] - xe) * lagrange(xs, xs[i], z));
        lemma_divided(c, xe, z);
        assert forall|i: int| 0 <= i < n implies #[trigger] f(i) == f1(i) + f2(i) by {
            lemma_divided(c, xe, xs[i]);
            let (fx, x, qi, li) = (poly_eval(c, xs[i]), xs[i], w(i), l(i));
            assert(fx * li == fe * li + qi * ((x - xe) * li)) by (nonlinear_arith)
                requires
                    fx - fe == (x - xe) * qi,
            ;
        }
        lemma_sigma_eq(n, f, |i: int| f1(i) + f2(i));
        lemma_sigma_eq(
            n,
            f,
            |i: int| poly_eval(c, xs[i]) * lagrange(xs, xs[i], z),
        );
        lemma_sigma_add(n, f1, f2);
        // first sum
        lemma_sigma_scale(n, fe, l);
        lemma_partition_of_unity(xs, z);
        lemma_sigma_eq(n, l, |i: int| lagrange(xs, xs[i], z));
        lemma_cong_mul(fe, fe, sigma(n, l), 1, m);
        assert(fe * 1 == fe);
        // second sum
        lemma_drop_last_sum(xs, w, z);
        lemma_interpolation(ys, q, z);
        lemma_sigma_eq(
            ys.len(),
            |i: int| w(i) * lagrange(xs.drop_last(), xs[i], z),
            |i: int| poly_eval(q, ys[i]) * lagrange(ys, ys[i], z),
        );
        let s = sigma(ys.len(), |i: int| poly_eval(q, ys[i]) * lagrange(ys, ys[i], z));
        lemma_cong_mul(z - xe, z - xe, s, poly_eval(q, z), m);
        lemma_cong_add(sigma(n, f1), fe, sigma(n, f2), (z - xe) * poly_eval(q, z), m);
    }
}

} // verus!
