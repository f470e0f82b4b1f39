//! What the x-coordinate says of a point of the prime-order subgroup of Jubjub.
use crate::algebra::{
    cong, is_prime, lemma_cong_add, lemma_cong_diff, lemma_cong_mod, lemma_cong_mul,
    lemma_cong_small, lemma_cong_sub, lemma_mod_reduced,
};
use crate::curves::{
    ed_a, ed_d, ed_sum, gin_generates, gin_identity, gin_in_group, gin_log, gin_on_curve, gin_pow,
    lemma_gin_eq, lemma_gin_power, lemma_gin_power_sum, GinPoint,
};
use crate::field::{fp_order, fs_order, lemma_fp_order, lemma_fs_order};
use vstd::prelude::*;

verus! {

/// A product that vanishes has a factor that does.
proof fn lemma_no_zero_divisors(a: int, b: int)
    requires
        is_prime(fp_order()),
        cong(a * b, 0, fp_order()),
    ensures
        cong(a, 0, fp_order()) || cong(b, 0, fp_order()),
{
    lemma_fp_order();
    lemma_mod_reduced(0, fp_order());
    assert((a * b) % fp_order() == 0);
}

/// Points of the curve with the same x-coordinate have the same y-coordinate up to
/// its sign.
proof fn lemma_same_x(p: GinPoint, q: GinPoint)
    requires
        is_prime(fp_order()),
        gin_on_curve(p),
        gin_on_curve(q),
        p.x == q.x,
    ensures
        cong(p.y, q.y, fp_order()) || cong(p.y, -q.y, fp_order()),
{
    let m = fp_order();
    lemma_fp_order();
    let (a, d, xx) = (ed_a(), ed_d(), p.x * p.x);
    let (yy, zz) = (p.y * p.y, q.y * q.y);
    // (y² − z²)·(1 − d·x²) = 0
    lemma_cong_sub(a * xx + yy, 1 + d * (xx * yy), a * xx + zz, 1 + d * (xx * zz), m);
    lemma_cong_diff(a * xx + yy - (a * xx + zz), 1 + d * (xx * yy) - (1 + d * (xx * zz)), m);
    let w = (yy - zz) * (1 - d * xx);
    assert(a * xx + yy - (a * xx + zz) - (1 + d * (xx * yy) - (1 + d * (xx * zz))) == w)
        by (nonlinear_arith)
        requires
            w == (yy - zz) * (1 - d * xx),
    ;
    lemma_mod_reduced(0, m);
    lemma_no_zero_divisors(yy - zz, 1 - d * xx);
    if cong(1 - d * xx, 0, m) {
        // d·x² = 1, so a·x² = 1, so (a − d)·x² = 0
        lemma_cong_sub(1, 1, 1 - d * xx, 0, m);
        assert(cong(d * xx, 1, m));
        lemma_cong_mul(d * xx, 1, yy, yy, m);
        assert((d * xx) * yy == d * (xx * yy)) by (nonlinear_arith);
        lemma_cong_add(1, 1, d * (xx * yy), yy, m);
        lemma_cong_sub(a * xx + yy, 1 + yy, yy, yy, m);
        lemma_cong_sub(a * xx, 1, d * xx, 1, m);
        assert(a * xx - d * xx == (a - d) * xx) by (nonlinear_arith);
        lemma_no_zero_divisors(a - d, xx);
        if cong(xx, 0, m) {
            lemma_cong_mul(d, d, xx, 0, m);
            assert(d * 0 == 0);
            lemma_mod_reduced(1, m);
            assert(false);
        }
        lemma_cong_add(a - d, 0, d, d, m);
        assert(cong(a, d, m));
        lemma_coefficients();
        lemma_cong_small(a, d, m);
        assert(false);
    }
    assert(yy - zz == (p.y - q.y) * (p.y + q.y)) by (nonlinear_arith)
        requires
            yy == p.y * p.y,
            zz == q.y * q.y,
    ;
    lemma_no_zero_divisors(p.y - q.y, p.y + q.y);
    if cong(p.y - q.y, 0, m) {
        lemma_cong_add(p.y - q.y, 0, q.y, q.y, m);
    } else {
        lemma_cong_sub(p.y + q.y, 0, q.y, q.y, m);
    }
}

/// The coefficients of the curve differ.
proof fn lemma_coefficients()
    ensures
        0 <= ed_a() < fp_order(),
        0 <= ed_d() < fp_order(),
        ed_a() != ed_d(),
{
    reveal(fp_order);
    reveal(ed_a);
    reveal(ed_d);
}

/// The sum of `(x, y)` and `(x, −y)` is `(0, −1)`.
proof fn lemma_sum_of_opposite(p: GinPoint, q: GinPoint, r: GinPoint)
    requires
        is_prime(fp_order()),
        gin_on_curve(p),
        p.x == q.x,
        cong(p.y, -q.y, fp_order()),
        ed_sum(p, q, r),
    ensures
        cong(r.x, 0, fp_order()),
        cong(r.y, -1, fp_order()),
{
    let m = fp_order();
    lemma_fp_order();
    lemma_mod_reduced(0, m);
    let (a, d, x, y, z) = (ed_a(), ed_d(), p.x, p.y, q.y);
    let xx = x * x;
    let t = d * (xx * (y * z));
    // r.x·(1 + t) = x·(y + z) = 0
    lemma_cong_add(y, -z, z, z, m);
    lemma_cong_mul(x, x, y + z, 0, m);
    assert(x * 0 == 0);
    assert(x * z + y * x == x * (y + z)) by (nonlinear_arith);
    lemma_no_zero_divisors(r.x, 1 + t);
    // y·z = −y²
    lemma_cong_sub(0, 0, y, -z, m);
    lemma_cong_mul(y, y, z, -y, m);
    assert(y * (-y) == -(y * y)) by (nonlinear_arith);
    lemma_cong_mul(xx, xx, y * z, -(y * y), m);
    lemma_cong_mul(d, d, xx * (y * z), xx * (-(y * y)), m);
    assert(d * (xx * (-(y * y))) == -(d * (xx * (y * y)))) by (nonlinear_arith);
    // 1 − t = a·x² + y²
    let e = a * xx + y * y;
    lemma_cong_sub(1, 1, t, -(d * (xx * (y * y))), m);
    assert(cong(1 - t, e, m));
    // r.y·(1 − t) = −(1 − t)
    lemma_cong_sub(y * z, -(y * y), a * xx, a * xx, m);
    lemma_cong_sub(0, 0, 1 - t, e, m);
    assert(cong(r.y * (1 - t), -(1 - t), m));
    lemma_cong_add(r.y * (1 - t), -(1 - t), 1 - t, 1 - t, m);
    assert((r.y + 1) * (1 - t) == r.y * (1 - t) + (1 - t)) by (nonlinear_arith);
    lemma_no_zero_divisors(r.y + 1, 1 - t);
    lemma_cong_sub(r.y + 1, 0, 1, 1, m);
}

/// The x-coordinate is injective on the prime-order subgroup: a point and its
/// negation have different ones, and so do any two keys.
pub proof fn law_x_is_injective(p: GinPoint, q: GinPoint)
    requires
        gin_generates(gin_pow(1)),
        gin_in_group(p),
        gin_in_group(q),
        p.x == q.x,
    ensures
        p == q,
{
    let (m, s) = (fp_order(), fs_order());
    lemma_fp_order();
    lemma_fs_order();
    lemma_gin_eq(p, q);
    lemma_gin_eq(q, p);
    let (a, b) = (gin_log(p), gin_log(q));
    lemma_gin_power(a);
    lemma_gin_power(b);
    lemma_same_x(p, q);
    if cong(p.y, q.y, m) {
        lemma_cong_small(p.y, q.y, m);
    } else {
        // p + q = (0, −1), which has order two
        let e = (a + b) % s;
        let r = gin_pow(e);
        lemma_gin_power(e);
        lemma_gin_power_sum(a, b);
        lemma_sum_of_opposite(p, q, r);
        lemma_cong_small(r.x, 0, m);
        lemma_cong_mod(-1, m);
        assert(r.x == 0);
        let f = (e + e) % s;
        let r2 = gin_pow(f);
        lemma_gin_power(f);
        lemma_gin_power_sum(e, e);
        lemma_double_of_two_torsion(r, r2);
        lemma_cong_small(r2.x, 0, m);
        lemma_cong_small(r2.y, 1, m);
        assert(r2 == gin_identity());
        assert(f == 0);
        lemma_even(e);
        assert(r == gin_identity());
        // 1 = −1 modulo p
        lemma_cong_diff(1, -1, m);
        lemma_mod_reduced(2, m);
        assert(false);
    }
}

/// `(0, −1)` doubled is the neutral element.
proof fn lemma_double_of_two_torsion(r: GinPoint, r2: GinPoint)
    requires
        r.x == 0,
        cong(r.y, -1, fp_order()),
        ed_sum(r, r, r2),
    ensures
        cong(r2.x, 0, fp_order()),
        cong(r2.y, 1, fp_order()),
{
    let m = fp_order();
    lemma_fp_order();
    let y = r.y;
    let t = ed_d() * ((r.x * r.x) * (r.y * r.y));
    let d = ed_d();
    assert(t == 0) by (nonlinear_arith)
        requires
            r.x == 0,
            t == d * ((r.x * r.x) * (r.y * r.y)),
    ;
    assert(r.x * r.y + r.y * r.x == 0) by (nonlinear_arith)
        requires
            r.x == 0,
    ;
    assert(ed_a() * (r.x * r.x) == 0) by (nonlinear_arith)
        requires
            r.x == 0,
    ;
    lemma_cong_mul(y, -1, y, -1, m);
    assert(r2.x * 1 == r2.x && r2.y * 1 == r2.y);
}

/// Twice an exponent vanishes only if the exponent does: the order is odd.
proof fn lemma_even(e: int)
    requires
        0 <= e < fs_order(),
        (e + e) % fs_order() == 0,
    ensures
        e == 0,
{
    let s = fs_order();
    lemma_fs_order();
    if 0 < e {
        if e + e < s {
            lemma_mod_reduced(e + e, s);
        } else {
            lemma_mod_reduced(e + e - s, s);
            lemma_cong_diff(e + e, e + e - s, s);
            vstd::arithmetic::div_mod::lemma_mod_self_0(s);
            assert(e + e == s);
        }
    }
}

} // verus!
