//! What fewer shares than the threshold leave open.
use crate::algebra::{
    cong, is_prime, lemma_cong_add, lemma_cong_mod, lemma_cong_mul, lemma_mod_reduced,
    lemma_poly_eval_cons, lemma_sigma_eq, poly_eval,
};
use crate::field::{fp_order, lemma_fp_order, lemma_fp_range};
use crate::lagrange::{
    apart, good_nodes, interpolation, inv, invertible, lemma_inv, lemma_invertible_product,
};
use crate::shamir::{
    has_duplicate, has_zero_index, lemma_shares_interpolate, share_indices, share_values, shares_of,
};
use crate::curves::Fp;
use vstd::arithmetic::power::pow;
use crate::dkg::lemma_poly_at_zero;
use vstd::prelude::*;

verus! {

// ─── inverses ───────────────────────────────────────────────────────────────

/// `g = a·u + b·v` divides `a` and `b`.
spec fn bezout(a: int, b: int, g: int, u: int, v: int) -> bool {
    &&& g > 0
    &&& a % g == 0
    &&& b % g == 0
    &&& g == a * u + b * v
}

/// Euclid's algorithm.
proof fn lemma_bezout(a: int, b: int) -> (r: (int, int, int))
    requires
        a > 0,
        b >= 0,
    ensures
        bezout(a, b, r.0, r.1, r.2),
    decreases b,
{
    if b == 0 {
        vstd::arithmetic::div_mod::lemma_mod_self_0(a);
        lemma_mod_reduced(0, a);
        assert(a * 1 + b * 0 == a);
        (a, 1, 0)
    } else {
        let (q, c) = (a / b, a % b);
        vstd::arithmetic::div_mod::lemma_fundamental_div_mod(a, b);
        vstd::arithmetic::div_mod::lemma_mod_bound(a, b);
        let (g, u, v) = lemma_bezout(b, c);
        // g divides a = b·q + c
        lemma_mod_reduced(0, g);
        lemma_cong_mul(b, 0, q, q, g);
        assert(0 * q == 0);
        lemma_cong_add(b * q, 0, c, 0, g);
        // g = b·u + (a − b·q)·v
        assert(b * u + (a - b * q) * v == a * v + b * (u - q * v)) by (nonlinear_arith);
        (g, v, u - q * v)
    }
}

/// In a prime field everything but zero has an inverse.
proof fn lemma_invertible(d: int)
    requires
        is_prime(fp_order()),
        d % fp_order() != 0,
    ensures
        invertible(d),
{
    let p = fp_order();
    lemma_fp_order();
    let c = d % p;
    let (g, u, v) = lemma_bezout(p, c);
    // p = g·k, so p divides g or k
    let k = p / g;
    vstd::arithmetic::div_mod::lemma_fundamental_div_mod(p, g);
    assert(g * k == p);
    vstd::arithmetic::div_mod::lemma_mod_self_0(p);
    assert((g * k) % p == 0);
    assert(k > 0) by (nonlinear_arith)
        requires
            g * k == p,
            g > 0,
            p > 0,
    ;
    assert(g <= p && k <= p) by (nonlinear_arith)
        requires
            g * k == p,
            g > 0,
            k > 0,
    ;
    if g % p == 0 {
        if g < p {
            lemma_mod_reduced(g, p);
        }
        // g = p divides c, which is below p
        lemma_mod_reduced(c, p);
        assert(false);
    } else {
        if k < p {
            lemma_mod_reduced(k, p);
        }
        assert(g == 1) by (nonlinear_arith)
            requires
                g * k == p,
                k == p,
                p > 0,
        ;
        // 1 = p·u + c·v
        vstd::arithmetic::div_mod::lemma_mod_self_0(p);
        lemma_mod_reduced(0, p);
        lemma_cong_mul(p, 0, u, u, p);
        assert(0 * u == 0);
        lemma_cong_mod(d, p);
        lemma_cong_mul(c, d, v, v, p);
        lemma_cong_add(p * u, 0, c * v, d * v, p);
        assert(cong(d * v, 1, p));
    }
}

/// Distinct indices are good nodes.
proof fn lemma_indices_are_nodes(xs: Seq<int>)
    requires
        is_prime(fp_order()),
        forall|i: int| 0 <= i < xs.len() ==> 0 <= #[trigger] xs[i] <= u32::MAX,
        forall|i: int, j: int| 0 <= i < j < xs.len() ==> xs[i] != xs[j],
    ensures
        good_nodes(xs),
{
    let p = fp_order();
    lemma_fp_order();
    assert forall|i: int, j: int|
        0 <= i < xs.len() && 0 <= j < xs.len() && i != j implies #[trigger] apart(xs[i], xs[j]) by {
        let d = xs[i] - xs[j];
        if i < j {
            assert(xs[i] != xs[j]);
        } else {
            assert(xs[j] != xs[i]);
        }
        if d > 0 {
            lemma_mod_reduced(d, p);
        } else {
            lemma_mod_reduced(d + p, p);
            vstd::arithmetic::div_mod::lemma_mod_add_multiples_vanish(d, p);
        }
        lemma_invertible(d);
    }
}

// ─── polynomials ────────────────────────────────────────────────────────────

/// `f + c·g`, as long as `g`.
spec fn combined(f: Seq<int>, c: int, g: Seq<int>) -> Seq<int> {
    Seq::new(
        g.len(),
        |i: int|
            (if i < f.len() {
                f[i]
            } else {
                0
            }) + c * g[i],
    )
}

proof fn lemma_combined(f: Seq<int>, c: int, g: Seq<int>, z: int)
    requires
        f.len() <= g.len(),
    ensures
        poly_eval(combined(f, c, g), z) == poly_eval(f, z) + c * poly_eval(g, z),
    decreases g.len(),
{
    let h = combined(f, c, g);
    if g.len() == 0 {
        assert(c * 0 == 0);
    } else {
        let g1 = g.drop_first();
        let f1 = if f.len() == 0 {
            f
        } else {
            f.drop_first()
        };
        let f0 = if f.len() == 0 {
            0
        } else {
            f[0]
        };
        lemma_combined(f1, c, g1, z);
        assert(h =~= seq![f0 + c * g[0]] + combined(f1, c, g1));
        lemma_poly_eval_cons(f0 + c * g[0], combined(f1, c, g1), z);
        assert(g =~= seq![g[0]] + g1);
        lemma_poly_eval_cons(g[0], g1, z);
        if f.len() > 0 {
            assert(f =~= seq![f0] + f1);
            lemma_poly_eval_cons(f0, f1, z);
        } else {
            assert(0 * z == 0);
        }
        let (a, b, g0) = (poly_eval(f1, z), poly_eval(g1, z), g[0]);
        assert((a + c * b) * z + (f0 + c * g0) == (a * z + f0) + c * (b * z + g0))
            by (nonlinear_arith);
    }
}

/// A leading zero changes nothing.
proof fn lemma_leading_zero(f: Seq<int>, z: int)
    ensures
        poly_eval(f.push(0), z) == poly_eval(f, z),
{
    let g = f.push(0);
    lemma_sigma_eq(
        f.len(),
        |i: int| g[i] * pow(z, i as nat),
        |i: int| f[i] * pow(z, i as nat),
    );
    let e = pow(z, f.len());
    assert(0 * e == 0);
}

/// `∏ (X − x_i)`.
spec fn node_poly(xs: Seq<int>) -> Seq<int>
    decreases xs.len(),
{
    if xs.len() == 0 {
        seq![1]
    } else {
        let f = node_poly(xs.drop_last());
        combined(seq![0int] + f, -xs.last(), f.push(0))
    }
}

/// `∏ (z − x_i)`.
spec fn node_value(xs: Seq<int>, z: int) -> int
    decreases xs.len(),
{
    if xs.len() == 0 {
        1
    } else {
        node_value(xs.drop_last(), z) * (z - xs.last())
    }
}

proof fn lemma_node_poly(xs: Seq<int>, z: int)
    ensures
        node_poly(xs).len() == xs.len() + 1,
        poly_eval(node_poly(xs), z) == node_value(xs, z),
    decreases xs.len(),
{
    if xs.len() == 0 {
        let e = Seq::<int>::empty();
        assert(seq![1int] =~= seq![1int] + e);
        lemma_poly_eval_cons(1, e, z);
        assert(0 * z == 0);
    } else {
        let f = node_poly(xs.drop_last());
        lemma_node_poly(xs.drop_last(), z);
        lemma_leading_zero(f, z);
        lemma_poly_eval_cons(0, f, z);
        lemma_combined(seq![0int] + f, -xs.last(), f.push(0), z);
        let (v, x) = (node_value(xs.drop_last(), z), xs.last());
        assert(v * z + (-x) * v == v * (z - x)) by (nonlinear_arith);
    }
}

/// The product vanishes at the nodes.
proof fn lemma_node_value_zero(xs: Seq<int>, i: int)
    requires
        0 <= i < xs.len(),
    ensures
        node_value(xs, xs[i]) == 0,
    decreases xs.len(),
{
    let (v, d) = (node_value(xs.drop_last(), xs[i]), xs[i] - xs.last());
    if i < xs.len() - 1 {
        lemma_node_value_zero(xs.drop_last(), i);
        assert(xs.drop_last()[i] == xs[i]);
        assert(0 * d == 0);
    } else {
        assert(v * 0 == 0);
    }
}

/// The product is invertible at a point that is apart from the nodes.
proof fn lemma_node_value_invertible(xs: Seq<int>, z: int)
    requires
        forall|i: int| 0 <= i < xs.len() ==> apart(z, #[trigger] xs[i]),
    ensures
        invertible(node_value(xs, z)),
    decreases xs.len(),
{
    lemma_fp_order();
    if xs.len() == 0 {
        assert(cong(1int * 1int, 1, fp_order()));
    } else {
        assert forall|i: int| 0 <= i < xs.len() - 1 implies apart(
            z,
            #[trigger] xs.drop_last()[i],
        ) by {
            assert(apart(z, xs[i]));
        }
        lemma_node_value_invertible(xs.drop_last(), z);
        assert(apart(z, xs[xs.len() - 1]));
        lemma_invertible_product(node_value(xs.drop_last(), z), z - xs.last());
    }
}

/// The polynomial through the points `(x_i, y_i)`, by Newton's method.
spec fn through(xs: Seq<int>, ys: Seq<int>) -> Seq<int>
    decreases xs.len(),
{
    if xs.len() == 0 {
        Seq::empty()
    } else {
        let (f, n) = (through(xs.drop_last(), ys.drop_last()), node_poly(xs.drop_last()));
        let c = (ys.last() - poly_eval(f, xs.last())) * inv(node_value(xs.drop_last(), xs.last()));
        combined(f, c, n)
    }
}

proof fn lemma_through(xs: Seq<int>, ys: Seq<int>, i: int)
    requires
        good_nodes(xs),
        xs.len() == ys.len(),
        0 <= i < xs.len(),
    ensures
        through(xs, ys).len() == xs.len(),
        cong(poly_eval(through(xs, ys), xs[i]), ys[i], fp_order()),
    decreases xs.len(),
{
    let m = fp_order();
    lemma_fp_order();
    let (px, py) = (xs.drop_last(), ys.drop_last());
    let (f, n) = (through(px, py), node_poly(px));
    let (x, z) = (xs.last(), xs[i]);
    let c = (ys.last() - poly_eval(f, x)) * inv(node_value(px, x));
    assert(good_nodes(px)) by {
        assert forall|j: int, k: int|
            0 <= j < px.len() && 0 <= k < px.len() && j != k implies #[trigger] apart(px[j], px[k]) by {
            assert(apart(xs[j], xs[k]));
        }
    }
    if px.len() > 0 {
        lemma_through(px, py, 0);
    }
    lemma_node_poly(px, z);
    lemma_combined(f, c, n, z);
    let v = node_value(px, z);
    if i < px.len() {
        lemma_through(px, py, i);
        lemma_node_value_zero(px, i);
        assert(c * 0 == 0);
    } else {
        assert forall|k: int| 0 <= k < px.len() implies apart(z, #[trigger] px[k]) by {
            assert(apart(xs[i], xs[k]));
        }
        lemma_node_value_invertible(px, z);
        lemma_inv(v);
        // c·v = y − f(x)
        let w = ys.last() - poly_eval(f, x);
        lemma_cong_mul(w, w, v * inv(v), 1, m);
        let iv = inv(v);
        assert((w * iv) * v == w * (v * iv)) by (nonlinear_arith);
        assert(w * 1 == w);
        lemma_cong_add(poly_eval(f, x), poly_eval(f, x), c * v, w, m);
    }
}

// ─── the law ────────────────────────────────────────────────────────────────

/// One share fewer than the threshold says nothing of the secret: for every secret
/// there is a polynomial with that secret and exactly these shares, with one
/// coefficient more than there are shares.
pub proof fn law_fewer_shares_leave_every_secret_open(shares: Seq<(u32, Fp)>, secret: int)
    requires
        is_prime(fp_order()),
        0 <= secret < fp_order(),
        !has_duplicate(shares),
        !has_zero_index(shares),
    ensures
        exists|f: Seq<int>| #[trigger]
            shares_of(shares, f) && f.len() == shares.len() + 1 && f[0] == secret && poly_eval(f, 0)
                == secret,
{
    let m = fp_order();
    lemma_fp_order();
    let xs = share_indices(shares);
    assert forall|i: int, j: int| 0 <= i < j < xs.len() implies xs[i] != xs[j] by {
        assert(shares[i].0 != shares[j].0);
    }
    lemma_indices_are_nodes(xs);
    // f = secret + X·g with g(x) = (y − secret) / x
    let ys = Seq::new(shares.len(), |i: int| (shares[i].1@ - secret) * inv(xs[i]));
    let g = through(xs, ys);
    let f = seq![secret] + g;
    if shares.len() > 0 {
        lemma_through(xs, ys, 0);
    }
    assert forall|i: int| 0 <= i < shares.len() implies (#[trigger] shares[i]).1@ == poly_eval(
        f,
        shares[i].0 as int,
    ) % m by {
        let (x, y) = (xs[i], shares[i].1@);
        assert(shares[i].0 != 0);
        lemma_mod_reduced(x, m);
        lemma_invertible(x);
        lemma_inv(x);
        lemma_through(xs, ys, i);
        lemma_poly_eval_cons(secret, g, x);
        let (w, ix) = (y - secret, inv(x));
        lemma_cong_mul(poly_eval(g, x), w * ix, x, x, m);
        assert((w * ix) * x == w * (x * ix)) by (nonlinear_arith);
        lemma_cong_mul(w, w, x * ix, 1, m);
        assert(w * 1 == w);
        lemma_cong_add(poly_eval(g, x) * x, w, secret, secret, m);
        lemma_fp_range(shares[i].1);
        lemma_mod_reduced(y, m);
    }
    lemma_poly_eval_cons(secret, g, 0);
    let e = poly_eval(g, 0);
    assert(e * 0 == 0);
    assert(shares_of(shares, f));
}

/// What [`crate::shamir::recover`] asks of shares holds of all shares with distinct indices
/// that are not zero, however many there are; and the value that it gives for shares of a
/// polynomial with no more coefficients than there are shares is the first coefficient.
pub proof fn law_distinct_shares_recover_the_secret(shares: Seq<(u32, Fp)>, f: Seq<int>)
    requires
        forall|i: int, j: int|
            0 <= i < j < shares.len() ==> (#[trigger] shares[i]).0 != (#[trigger] shares[j]).0,
        forall|i: int| 0 <= i < shares.len() ==> (#[trigger] shares[i]).0 != 0,
        1 <= f.len() <= shares.len(),
        0 <= f[0] < fp_order(),
        forall|i: int|
            0 <= i < shares.len() ==> (#[trigger] shares[i]).1@ == poly_eval(f, shares[i].0 as int)
                % fp_order(),
    ensures
        !has_duplicate(shares),
        !has_zero_index(shares),
        shares_of(shares, f),
        poly_eval(f, 0) % fp_order() == f[0],
        is_prime(fp_order()) ==> interpolation(share_indices(shares), share_values(shares), 0)
            % fp_order() == f[0],
{
    lemma_fp_order();
    lemma_poly_at_zero(f);
    lemma_mod_reduced(f[0], fp_order());
    if is_prime(fp_order()) {
        let xs = share_indices(shares);
        lemma_indices_are_nodes(xs);
        lemma_shares_interpolate(shares, f, 0);
    }
}

/// Shares with two equal indices, or with the index zero, are found out, wherever they stand.
pub proof fn law_bad_indices_are_found(shares: Seq<(u32, Fp)>, i: int, j: int)
    requires
        0 <= i < shares.len(),
        0 <= j < shares.len(),
    ensures
        i != j && shares[i].0 == shares[j].0 ==> has_duplicate(shares),
        shares[i].0 == 0 ==> has_zero_index(shares),
{
}

} // verus!
