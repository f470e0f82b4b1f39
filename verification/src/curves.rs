//! The two groups of the library.
//!
//! `G_in`  is the embedded curve, where the Diffie-Hellman keys live: *Jubjub*,
//!         a twisted Edwards curve over `F_p` with cofactor 8.
//! `G_out` is the outer curve, where the public key, the Feldman commitments and
//!         the pad commitments live: BLS12-381 `G1`.
//!
//! `G_out` has prime order `p`, which is also the characteristic of `G_in`, so the
//! coordinates of `G_in` are native values of a proof system over `G_out`.
//!
//! Points are kept as their affine coordinates; `ark-ec` does the group
//! operations. In contracts a point of a prime-order group is spoken of by its
//! exponent: [`gout_log`] and [`gin_log`] give the `k` with `P = g^k`.
use crate::algebra::{
    cong, dot, is_prime, lemma_cong_add, lemma_cong_mod, lemma_cong_mul, lemma_cong_small,
    lemma_cong_sub, lemma_mod_reduced,
};
use crate::field::{
    fp_order, fps, fs_order, lemma_fp_order, lemma_fp_range, lemma_le_bytes_value,
    lemma_order_bytes,
};
pub use crate::field::{Fp, Fs};
use crate::lagrange::{inv, invertible, lemma_inv, lemma_inv_unique};
use ark_ec::hashing::HashToCurve;
use ark_ec::twisted_edwards::TECurveConfig;
use ark_ec::{AffineRepr, CurveGroup, PrimeGroup, VariableBaseMSM};
use ark_ff::{AdditiveGroup, PrimeField};
use ark_serialize::{CanonicalSerialize, Valid};
use rayon::iter::{IntoParallelIterator, ParallelIterator};
use vstd::prelude::*;
use vstd::std_specs::cmp::PartialEqSpecImpl;

verus! {

// ─── the groups in contracts ────────────────────────────────────────────────

/// The coordinates of a point of `G_in`.
pub struct GinPoint {
    pub x: int,
    pub y: int,
}

/// The extended coordinates of a point of `G_in`: it is `(x/z, y/z)`, and `t` is `xy/z`.
pub struct GinExt {
    pub x: int,
    pub y: int,
    pub t: int,
    pub z: int,
}

/// The coordinates of a point of `G_out`, or the point at infinity.
pub struct GoutPoint {
    pub x: int,
    pub y: int,
    pub infinity: bool,
}

/// `g_in^k` for `0 ≤ k < s`: the multiples of the generator as `ark-ec` computes
/// them.
pub uninterp spec fn gin_pow(k: int) -> GinPoint;

/// What `ark-ec` computes as a multiple of a pair of coordinates over `F_p`, before it is
/// normalised.
pub uninterp spec fn gin_scale_ext(p: GinPoint, k: int) -> GinExt;

/// The compressed form of a Jubjub point.
pub uninterp spec fn gin_bytes(p: GinPoint) -> Seq<u8>;

/// `g_out^k` for `0 ≤ k < p`: the multiples of the generator as `ark-ec` computes
/// them.
pub uninterp spec fn gout_pow(k: int) -> GoutPoint;

/// What `ark-ec` computes as the sum of two `G1` points.
pub uninterp spec fn gout_sum(p: GoutPoint, q: GoutPoint) -> GoutPoint;

/// What `ark-ec` computes as the product of a `G1` point with a scalar.
pub uninterp spec fn gout_scale(p: GoutPoint, k: int) -> GoutPoint;

/// What `ark-ec` computes as the product of a `G1` point with a small integer, by
/// doubling and adding.
pub uninterp spec fn gout_scale_bits(p: GoutPoint, k: int) -> GoutPoint;

/// What `ark-ec` computes as a multi-scalar product of `G1` points.
pub uninterp spec fn gout_msm(bases: Seq<GoutPoint>, scalars: Seq<int>) -> GoutPoint;

/// The compressed form of a `G1` point.
pub uninterp spec fn gout_bytes(p: GoutPoint) -> Seq<u8>;

/// The `G1` point that a message hashes to under a domain separator.
pub uninterp spec fn gout_hash(domain: Seq<u8>, msg: Seq<u8>) -> GoutPoint;

/// The neutral element of `G_in`.
pub open spec fn gin_identity() -> GinPoint {
    GinPoint { x: 0, y: 1 }
}

/// The neutral element of `G_out`.
pub open spec fn gout_identity() -> GoutPoint {
    GoutPoint { x: 0, y: 0, infinity: true }
}

/// `a` of the curve equation, `-1`.
#[verifier::opaque]
pub open spec fn ed_a() -> int {
    fp_order() - 1
}

/// `d` of the curve equation, `-10240/10241`.
#[verifier::opaque]
pub open spec fn ed_d() -> int {
    0x2a9318e74bfa2b48f5fd9207e6bd7fd4292d7f6d37579d2601065fd6d6343eb1int
}

/// The negation of a point of `G_in`.
pub open spec fn gin_neg(p: GinPoint) -> GinPoint {
    GinPoint { x: (-p.x) % fp_order(), y: p.y }
}

/// `a·x² + y² = 1 + d·x²·y²`.
pub open spec fn gin_on_curve(p: GinPoint) -> bool {
    cong(
        ed_a() * (p.x * p.x) + p.y * p.y,
        1 + ed_d() * ((p.x * p.x) * (p.y * p.y)),
        fp_order(),
    )
}

/// `r` is `p + q` by the addition law of the curve, whose denominators are not
/// zero:
///
/// ```text
///   x3·(1 + d·x1·x2·y1·y2) = x1·y2 + y1·x2
///   y3·(1 − d·x1·x2·y1·y2) = y1·y2 − a·x1·x2
/// ```
pub open spec fn ed_sum(p: GinPoint, q: GinPoint, r: GinPoint) -> bool {
    let t = ed_d() * ((p.x * q.x) * (p.y * q.y));
    &&& cong(r.x * (1 + t), p.x * q.y + p.y * q.x, fp_order())
    &&& cong(r.y * (1 - t), p.y * q.y - ed_a() * (p.x * q.x), fp_order())
    &&& (1 + t) % fp_order() != 0
    &&& (1 - t) % fp_order() != 0
}

/// The extended coordinates of `(x, y)`.
pub open spec fn ext_of(p: GinPoint) -> GinExt {
    GinExt { x: p.x, y: p.y, t: (p.x * p.y) % fp_order(), z: 1 }
}

/// `(x/z, y/z)`.
pub open spec fn ext_affine(e: GinExt) -> GinPoint {
    GinPoint { x: (e.x * inv(e.z)) % fp_order(), y: (e.y * inv(e.z)) % fp_order() }
}

/// The sum of two points in extended coordinates, the second one normalised, by the unified
/// addition formulas:
///
/// ```text
///   E = x1·y2 + y1·x2    F = z1 − d·t1·x2·y2    G = z1 + d·t1·x2·y2    H = y1·y2 − a·x1·x2
/// ```
pub open spec fn ext_sum(e: GinExt, q: GinPoint) -> GinExt {
    let c = ed_d() * (e.t * (q.x * q.y));
    ext_from(
        e.x * q.y + e.y * q.x,
        e.z - c,
        e.z + c,
        e.y * q.y - ed_a() * (e.x * q.x),
    )
}

/// The double of a point in extended coordinates:
///
/// ```text
///   E = 2·x·y    G = a·x² + y²    F = G − 2·z²    H = a·x² − y²
/// ```
pub open spec fn ext_double(e: GinExt) -> GinExt {
    let g = ed_a() * (e.x * e.x) + e.y * e.y;
    ext_from(
        2 * (e.x * e.y),
        g - 2 * (e.z * e.z),
        g,
        ed_a() * (e.x * e.x) - e.y * e.y,
    )
}

/// `(E·F, G·H, E·H, F·G)`.
pub open spec fn ext_from(e: int, f: int, g: int, h: int) -> GinExt {
    let m = fp_order();
    GinExt { x: (e * f) % m, y: (g * h) % m, t: (e * h) % m, z: (f * g) % m }
}

/// The neutral element in extended coordinates.
pub open spec fn ext_is_zero(e: GinExt) -> bool {
    e.x == 0 && e.y == e.z && e.y != 0 && e.t == 0
}

/// Equality of points in extended coordinates: `x1·z2 = x2·z1` and `y1·z2 = y2·z1`, and the
/// neutral element is equal to itself alone.
pub open spec fn ext_eq(e: GinExt, f: GinExt) -> bool {
    if ext_is_zero(e) {
        ext_is_zero(f)
    } else {
        &&& !ext_is_zero(f)
        &&& cong(e.x * f.z, f.x * e.z, fp_order())
        &&& cong(e.y * f.z, f.y * e.z, fp_order())
    }
}

/// Extended coordinates of a point of the curve.
pub open spec fn ext_on_curve(e: GinExt) -> bool {
    &&& e.z != 0
    &&& invertible(e.z)
    &&& cong(e.x * e.y, e.z * e.t, fp_order())
    &&& gin_on_curve(ext_affine(e))
}

/// The sum of two pairs of coordinates, by the addition formulas of Jubjub.
#[verifier::opaque]
pub open spec fn gin_sum(p: GinPoint, q: GinPoint) -> GinPoint {
    ext_affine(ext_sum(ext_of(p), q))
}

/// Whether a sum has coordinates: that of two points of the curve always does.
pub open spec fn sum_defined(p: GinPoint, q: GinPoint) -> bool {
    (gin_on_curve(p) && gin_on_curve(q)) || ext_sum(ext_of(p), q).z != 0
}

/// The double of a pair of coordinates, by the doubling formulas of Jubjub.
#[verifier::opaque]
pub open spec fn gin_double(p: GinPoint) -> GinPoint {
    ext_affine(ext_double(ext_of(p)))
}

/// Whether a double has coordinates: that of a point of the curve always does.
pub open spec fn double_defined(p: GinPoint) -> bool {
    gin_on_curve(p) || ext_double(ext_of(p)).z != 0
}

/// A multiple of a pair of coordinates, as `ark-ec` computes it on Jubjub.
#[verifier::opaque]
pub open spec fn gin_scale(p: GinPoint, k: int) -> GinPoint {
    ext_affine(gin_scale_ext(p, k))
}

/// Whether a multiple has coordinates: that of a point of the curve always does.
pub open spec fn scale_defined(p: GinPoint, k: int) -> bool {
    gin_on_curve(p) || gin_scale_ext(p, k).z != 0
}

/// `p = g_in^k`, and no other exponent below the group order gives `p`.
pub open spec fn gin_is_pow(p: GinPoint, k: int) -> bool {
    &&& 0 <= k < fs_order()
    &&& p == gin_pow(k)
    &&& forall|j: int| 0 <= j < fs_order() && #[trigger] gin_pow(j) == p ==> j == k
    &&& (p == gin_identity() <==> k == 0)
    &&& gin_on_curve(p)
}

/// `p` is in the prime-order subgroup of `G_in`.
pub open spec fn gin_in_group(p: GinPoint) -> bool {
    exists|k: int| gin_is_pow(p, k)
}

/// The exponent of `p` to the base `g_in`.
pub open spec fn gin_log(p: GinPoint) -> int {
    choose|k: int| gin_is_pow(p, k)
}

/// The powers of `g_in` below the group order are distinct points of the curve with
/// reduced coordinates, and they add up by the addition law of the curve.
#[verifier::opaque]
pub open spec fn gin_group_law() -> bool {
    &&& forall|k: int|
        0 <= k < fs_order() ==> gin_is_pow(#[trigger] gin_pow(k), k) && 0 <= gin_pow(k).x
            < fp_order() && 0 <= gin_pow(k).y < fp_order()
    &&& forall|a: int, b: int|
        0 <= a < fs_order() && 0 <= b < fs_order() ==> ed_sum(
            #[trigger] gin_pow(a),
            #[trigger] gin_pow(b),
            gin_pow((a + b) % fs_order()),
        )
}

/// A power of `g_in`.
pub proof fn lemma_gin_power(k: int)
    requires
        gin_group_law(),
        0 <= k < fs_order(),
    ensures
        gin_is_pow(gin_pow(k), k),
        0 <= gin_pow(k).x < fp_order(),
        0 <= gin_pow(k).y < fp_order(),
{
    reveal(gin_group_law);
}

/// The sum of two powers of `g_in`.
pub proof fn lemma_gin_power_sum(a: int, b: int)
    requires
        gin_group_law(),
        0 <= a < fs_order(),
        0 <= b < fs_order(),
    ensures
        ed_sum(gin_pow(a), gin_pow(b), gin_pow((a + b) % fs_order())),
{
    reveal(gin_group_law);
}

/// `g` is `g_in`, a point over a prime field, and its powers are a group.
pub open spec fn gin_generates(g: GinPoint) -> bool {
    gin_is_pow(g, 1) && is_prime(fp_order()) && gin_group_law()
}

/// `p = g_out^k`, and no other exponent below the group order gives `p`.
pub open spec fn gout_is_pow(p: GoutPoint, k: int) -> bool {
    &&& 0 <= k < fp_order()
    &&& p == gout_pow(k)
    &&& forall|j: int| 0 <= j < fp_order() && #[trigger] gout_pow(j) == p ==> j == k
    &&& (p == gout_identity() <==> k == 0)
}

/// `p` is in the prime-order subgroup of `G_out`.
pub open spec fn gout_in_group(p: GoutPoint) -> bool {
    exists|k: int| gout_is_pow(p, k)
}

/// The exponent of `p` to the base `g_out`.
pub open spec fn gout_log(p: GoutPoint) -> int {
    choose|k: int| gout_is_pow(p, k)
}

/// Every point of `s` is in the prime-order subgroup of `G_out`.
pub open spec fn gouts_in_group(s: Seq<GoutPoint>) -> bool {
    forall|i: int| 0 <= i < s.len() ==> #[trigger] gout_in_group(s[i])
}

/// The exponents of the points of `s`.
pub open spec fn gout_logs(s: Seq<GoutPoint>) -> Seq<int> {
    Seq::new(s.len(), |i: int| gout_log(s[i]))
}

/// The points that the elements of `s` stand for.
pub open spec fn gouts(s: Seq<GoutAffine>) -> Seq<GoutPoint> {
    Seq::new(s.len(), |i: int| s[i]@)
}

/// A point of `y² = x³ + 4` over the base field of `G_out`, or the point at infinity.
pub open spec fn gout_on_curve(p: GoutPoint) -> bool {
    if p.infinity {
        p == gout_identity()
    } else {
        &&& 0 <= p.x < fq_order()
        &&& 0 <= p.y < fq_order()
        &&& cong(p.y * p.y, p.x * p.x * p.x + 4, fq_order())
    }
}

/// Every point of `s` is on the curve.
pub open spec fn gouts_on_curve(s: Seq<GoutPoint>) -> bool {
    forall|i: int| 0 <= i < s.len() ==> #[trigger] gout_on_curve(s[i])
}

/// The points of the curve are a commutative group with the neutral element `e`.
#[verifier::opaque]
pub open spec fn gout_group(e: GoutPoint) -> bool {
    &&& gout_on_curve(e)
    &&& forall|p: GoutPoint, q: GoutPoint|
        gout_on_curve(p) && gout_on_curve(q) ==> gout_on_curve(#[trigger] gout_sum(p, q))
            && gout_sum(p, q) == gout_sum(q, p)
    &&& forall|p: GoutPoint, q: GoutPoint, r: GoutPoint|
        gout_on_curve(p) && gout_on_curve(q) && gout_on_curve(r) ==> #[trigger] gout_sum(
            gout_sum(p, q),
            r,
        ) == gout_sum(p, gout_sum(q, r))
    &&& forall|p: GoutPoint| gout_on_curve(p) ==> #[trigger] gout_sum(p, e) == p
}

/// `p + … + p`, `k` times.
pub open spec fn gout_multiple(p: GoutPoint, k: nat) -> GoutPoint
    decreases k,
{
    if k == 0 {
        gout_identity()
    } else {
        gout_sum(gout_multiple(p, (k - 1) as nat), p)
    }
}

/// `r` is `p + q` in `G_out`: exponents add up, and adding the neutral element changes nothing.
pub open spec fn gout_sum_is(p: GoutPoint, q: GoutPoint, r: GoutPoint) -> bool {
    &&& r == gout_sum(p, q)
    &&& q == gout_identity() ==> r == p
    &&& p == gout_identity() ==> r == q
    &&& gout_in_group(p) && gout_in_group(q) ==> gout_is_pow(
        r,
        (gout_log(p) + gout_log(q)) % fp_order(),
    )
}

/// `r` is `p` taken `k` times in `G_out`: the exponent is multiplied by `k`.
pub open spec fn gout_scale_is(p: GoutPoint, k: int, r: GoutPoint) -> bool {
    &&& r == gout_scale(p, k)
    &&& k == 0 ==> r == gout_identity()
    &&& gout_in_group(p) ==> gout_is_pow(r, (gout_log(p) * k) % fp_order())
}

/// `r` is `∑ scalars[i] · bases[i]` in `G_out`.
pub open spec fn gout_msm_is(bases: Seq<GoutPoint>, scalars: Seq<int>, r: GoutPoint) -> bool {
    &&& r == gout_msm(bases, scalars)
    &&& gouts_in_group(bases) ==> gout_is_pow(r, dot(gout_logs(bases), scalars) % fp_order())
}

/// The sum of two points of the curve.
pub proof fn lemma_gout_add(p: GoutPoint, q: GoutPoint)
    requires
        gout_group(gout_identity()),
        gout_on_curve(p),
        gout_on_curve(q),
    ensures
        gout_on_curve(gout_sum(p, q)),
        gout_sum(p, q) == gout_sum(q, p),
        gout_sum(p, gout_identity()) == p,
        gout_sum(gout_identity(), p) == p,
        gout_on_curve(gout_identity()),
{
    reveal(gout_group);
    assert(gout_sum(p, gout_identity()) == gout_sum(gout_identity(), p));
}

/// The sum of three points of the curve.
pub proof fn lemma_gout_assoc(p: GoutPoint, q: GoutPoint, r: GoutPoint)
    requires
        gout_group(gout_identity()),
        gout_on_curve(p),
        gout_on_curve(q),
        gout_on_curve(r),
    ensures
        gout_sum(gout_sum(p, q), r) == gout_sum(p, gout_sum(q, r)),
        gout_sum(gout_sum(p, q), r) == gout_sum(gout_sum(p, r), q),
{
    reveal(gout_group);
    assert(gout_sum(gout_sum(p, r), q) == gout_sum(p, gout_sum(r, q)));
    assert(gout_sum(q, r) == gout_sum(r, q));
}

/// Multiples of a point of the curve are on it, and those of the neutral element are itself.
pub proof fn lemma_gout_multiple(p: GoutPoint, k: nat)
    requires
        gout_group(gout_identity()),
        gout_on_curve(p),
    ensures
        gout_on_curve(gout_multiple(p, k)),
        gout_multiple(p, 1) == p,
        gout_multiple(gout_identity(), k) == gout_identity(),
    decreases k,
{
    lemma_gout_add(p, p);
    lemma_gout_add(gout_identity(), gout_identity());
    reveal_with_fuel(gout_multiple, 2);
    if k > 0 {
        lemma_gout_multiple(p, (k - 1) as nat);
        lemma_gout_add(gout_multiple(p, (k - 1) as nat), p);
    }
}

/// `(a + b)·p = a·p + b·p`.
pub proof fn lemma_gout_multiple_add(p: GoutPoint, a: nat, b: nat)
    requires
        gout_group(gout_identity()),
        gout_on_curve(p),
    ensures
        gout_multiple(p, a + b) == gout_sum(gout_multiple(p, a), gout_multiple(p, b)),
    decreases b,
{
    lemma_gout_multiple(p, a);
    if b == 0 {
        lemma_gout_add(gout_multiple(p, a), p);
    } else {
        let c = (b - 1) as nat;
        lemma_gout_multiple_add(p, a, c);
        lemma_gout_multiple(p, c);
        lemma_gout_assoc(gout_multiple(p, a), gout_multiple(p, c), p);
        assert((a + b - 1) as nat == a + c);
    }
}

/// `b·(a·p) = (a·b)·p`.
pub proof fn lemma_gout_multiple_mul(p: GoutPoint, a: nat, b: nat)
    requires
        gout_group(gout_identity()),
        gout_on_curve(p),
    ensures
        gout_multiple(gout_multiple(p, a), b) == gout_multiple(p, a * b),
    decreases b,
{
    if b == 0 {
        assert(a * b == 0) by (nonlinear_arith)
            requires
                b == 0,
        ;
    } else {
        let c = (b - 1) as nat;
        lemma_gout_multiple_mul(p, a, c);
        lemma_gout_multiple_add(p, a * c, a);
        assert(a * b == a * c + a) by (nonlinear_arith)
            requires
                b == c + 1,
        ;
    }
}

/// `k·(p + q) = k·p + k·q`.
pub proof fn lemma_gout_multiple_sum(p: GoutPoint, q: GoutPoint, k: nat)
    requires
        gout_group(gout_identity()),
        gout_on_curve(p),
        gout_on_curve(q),
    ensures
        gout_multiple(gout_sum(p, q), k) == gout_sum(gout_multiple(p, k), gout_multiple(q, k)),
    decreases k,
{
    lemma_gout_add(p, q);
    if k == 0 {
        lemma_gout_add(gout_identity(), p);
        lemma_gout_add(gout_identity(), gout_identity());
    } else {
        let c = (k - 1) as nat;
        let (a, b) = (gout_multiple(p, c), gout_multiple(q, c));
        lemma_gout_multiple_sum(p, q, c);
        lemma_gout_multiple(p, c);
        lemma_gout_multiple(q, c);
        // (a + b) + (p + q) = (a + p) + (b + q)
        lemma_gout_add(a, b);
        lemma_gout_assoc(gout_sum(a, b), p, q);
        lemma_gout_assoc(a, b, p);
        lemma_gout_add(a, p);
        lemma_gout_assoc(gout_sum(a, p), b, q);
    }
}

pub proof fn lemma_gout_log(p: GoutPoint, k: int)
    requires
        gout_is_pow(p, k),
    ensures
        gout_in_group(p),
        gout_log(p) == k,
{
}

pub proof fn lemma_gin_log(p: GinPoint, k: int)
    requires
        gin_is_pow(p, k),
    ensures
        gin_in_group(p),
        gin_log(p) == k,
{
}

/// Points of the prime-order group are equal exactly where their exponents are.
pub proof fn lemma_gout_eq(p: GoutPoint, q: GoutPoint)
    requires
        gout_in_group(p),
        gout_in_group(q),
    ensures
        p == q <==> gout_log(p) == gout_log(q),
        p == gout_identity() <==> gout_log(p) == 0,
        0 <= gout_log(p) < fp_order(),
{
}

pub proof fn lemma_gin_eq(p: GinPoint, q: GinPoint)
    requires
        gin_in_group(p),
        gin_in_group(q),
    ensures
        p == q <==> gin_log(p) == gin_log(q),
        p == gin_identity() <==> gin_log(p) == 0,
        0 <= gin_log(p) < fs_order(),
{
}

/// `r` is `p + q`: by the addition law, on the curve where `p` and `q` are, and in the
/// prime-order subgroup the exponents add up.
pub open spec fn sum_is(p: GinPoint, q: GinPoint, r: GinPoint) -> bool {
    &&& r == gin_sum(p, q)
    &&& ed_sum(p, q, r)
    &&& gin_on_curve(p) && gin_on_curve(q) ==> gin_on_curve(r)
    &&& gin_in_group(p) && gin_in_group(q) ==> gin_is_pow(
        r,
        (gin_log(p) + gin_log(q)) % fs_order(),
    )
}

/// `r` is `2·p`. On the curve it is the sum of `p` and itself, the exponent is doubled in the
/// prime-order subgroup, and doubling three times leads there.
pub open spec fn double_is(p: GinPoint, r: GinPoint) -> bool {
    &&& r == gin_double(p)
    &&& gin_on_curve(p) ==> gin_on_curve(r) && ed_sum(p, p, r)
    &&& gin_in_group(p) ==> gin_is_pow(r, (2 * gin_log(p)) % fs_order())
    &&& gin_on_curve(p) ==> forall|q: GinPoint|
        gin_on_curve(q) && p == #[trigger] gin_double(gin_double(q)) ==> gin_in_group(r)
}

/// `r` is `k·p`. On the curve it is a point of it; in the prime-order subgroup the exponent
/// is multiplied by `k`.
pub open spec fn scale_is(p: GinPoint, k: int, r: GinPoint) -> bool {
    &&& r == gin_scale(p, k)
    &&& gin_on_curve(p) ==> gin_on_curve(r)
    &&& gin_in_group(p) ==> gin_is_pow(r, (gin_log(p) * k) % fs_order())
    &&& gin_in_group(p) && p != gin_identity() && k != 0 ==> r != gin_identity()
}

/// A point is what its extended coordinates stand for.
proof fn lemma_ext_of(p: GinAffine)
    ensures
        ext_affine(ext_of(p@)) == p@,
        gin_on_curve(p@) ==> ext_on_curve(ext_of(p@)),
{
    let m = fp_order();
    lemma_fp_order();
    lemma_mod_reduced(1, m);
    lemma_inv_unique(1, 1);
    lemma_inv(1);
    lemma_cong_small(inv(1), 1, m);
    lemma_fp_range(p.x);
    lemma_fp_range(p.y);
    let (x, y) = (p@.x, p@.y);
    assert(x * 1 == x && y * 1 == y);
    lemma_mod_reduced(x, m);
    lemma_mod_reduced(y, m);
    lemma_cong_mod(x * y, m);
}

/// The sum of two pairs of coordinates satisfies the addition law, where it has coordinates.
proof fn lemma_ed_sum(p: GinPoint, q: GinPoint)
    requires
        invertible(ext_sum(ext_of(p), q).z),
    ensures
        ed_sum(p, q, ext_affine(ext_sum(ext_of(p), q))),
{
    let m = fp_order();
    lemma_fp_order();
    let s = ext_sum(ext_of(p), q);
    let t = ed_d() * ((p.x * q.x) * (p.y * q.y));
    let u = (p.x * p.y) % m;
    let c = ed_d() * (u * (q.x * q.y));
    lemma_cong_mod(p.x * p.y, m);
    lemma_cong_mul(u, p.x * p.y, q.x * q.y, q.x * q.y, m);
    let (x1, y1, x2, y2) = (p.x, p.y, q.x, q.y);
    assert((x1 * y1) * (x2 * y2) == (x1 * x2) * (y1 * y2)) by (nonlinear_arith);
    lemma_cong_mul(ed_d(), ed_d(), u * (q.x * q.y), (p.x * q.x) * (p.y * q.y), m);
    assert(cong(c, t, m));
    let (e, h) = (x1 * y2 + y1 * x2, y1 * y2 - ed_a() * (x1 * x2));
    let (f, g) = (1 - c, 1 + c);
    lemma_cong_sub(1, 1, c, t, m);
    lemma_cong_add(1, 1, c, t, m);
    let v = inv(s.z);
    lemma_inv(s.z);
    lemma_cong_mod(f * g, m);
    lemma_cong_mul(s.z, f * g, v, v, m);
    assert(cong((f * g) * v, 1, m));
    // x·g = e·f·v·g = e
    lemma_quotient_by(s.x, e, f, g, v, m);
    assert(f * g == g * f) by (nonlinear_arith);
    assert(g * h == h * g) by (nonlinear_arith);
    lemma_quotient_by(s.y, h, g, f, v, m);
    let r = ext_affine(s);
    lemma_cong_mul(r.x, r.x, 1 + t, g, m);
    lemma_cong_mul(r.y, r.y, 1 - t, f, m);
    // the denominators are factors of a unit
    lemma_cong_zero_factor(f, g, v, 1 + t, 1 - t, m);
}

/// `(x·v)·g = e` for `x = e·f` and `v` the inverse of `f·g`.
proof fn lemma_quotient_by(x: int, e: int, f: int, g: int, v: int, m: int)
    requires
        m > 1,
        x == (e * f) % m,
        cong((f * g) * v, 1, m),
    ensures
        cong(((x * v) % m) * g, e, m),
{
    lemma_cong_mod(e * f, m);
    lemma_cong_mul(x, e * f, v, v, m);
    lemma_cong_mod(x * v, m);
    lemma_cong_mul((x * v) % m, (e * f) * v, g, g, m);
    assert(((e * f) * v) * g == e * ((f * g) * v)) by (nonlinear_arith);
    lemma_cong_mul(e, e, (f * g) * v, 1, m);
    assert(e * 1 == e);
}

/// Factors of a unit do not vanish.
proof fn lemma_cong_zero_factor(f: int, g: int, v: int, g2: int, f2: int, m: int)
    requires
        m > 1,
        cong((f * g) * v, 1, m),
        cong(f, f2, m),
        cong(g, g2, m),
    ensures
        f2 % m != 0,
        g2 % m != 0,
{
    lemma_mod_reduced(0, m);
    lemma_mod_reduced(1, m);
    if f2 % m == 0 {
        lemma_cong_mul(f, 0, g * v, g * v, m);
        assert((f * g) * v == f * (g * v)) by (nonlinear_arith);
        assert(0 * (g * v) == 0);
    }
    if g2 % m == 0 {
        lemma_cong_mul(g, 0, f * v, f * v, m);
        assert((f * g) * v == g * (f * v)) by (nonlinear_arith);
        assert(0 * (f * v) == 0);
    }
}

// ─── G_in ───────────────────────────────────────────────────────────────────

/// A pair of coordinates over `F_p`, meant to be a point of Jubjub.
#[derive(Clone, Copy, Debug)]
pub struct GinAffine {
    pub x: Fp,
    pub y: Fp,
}

impl View for GinAffine {
    type V = GinPoint;

    open spec fn view(&self) -> GinPoint {
        GinPoint { x: self.x@, y: self.y@ }
    }
}

impl PartialEq for GinAffine {
    fn eq(&self, other: &GinAffine) -> (r: bool) {
        self.x == other.x && self.y == other.y
    }
}

impl PartialEqSpecImpl for GinAffine {
    open spec fn obeys_eq_spec() -> bool {
        true
    }

    open spec fn eq_spec(&self, other: &GinAffine) -> bool {
        self@ == other@
    }
}

impl Eq for GinAffine {

}

impl GinAffine {
    /// A pair of coordinates, taken as it is.
    pub fn new_unchecked(x: Fp, y: Fp) -> (r: GinAffine)
        ensures
            r@ == (GinPoint { x: x@, y: y@ }),
    {
        GinAffine { x, y }
    }

    /// `ark_ec`: the neutral element `(0, 1)`.
    #[verifier::external_body]
    fn ark_zero() -> (r: GinAffine)
        ensures
            r@ == gin_identity(),
            gin_is_pow(r@, 0),
    {
        let r = ark_ed_on_bls12_381::EdwardsAffine::zero();
        GinAffine {
            x: Fp::from_limbs(r.x.into_bigint().0),
            y: Fp::from_limbs(r.y.into_bigint().0),
        }
    }

    /// The neutral element `(0, 1)`.
    pub fn zero() -> (r: GinAffine)
        ensures
            r@ == gin_identity(),
            gin_is_pow(r@, 0),
    {
        GinAffine::ark_zero()
    }

    pub fn is_zero(&self) -> (r: bool)
        ensures
            r == (self@ == gin_identity()),
    {
        self.x.is_zero() && self.y.is_one()
    }

    /// `ark_ec`: the negation of a point, `(-x, y)`. In the prime-order subgroup
    /// the exponent is negated.
    #[verifier::external_body]
    fn ark_neg(&self) -> (r: GinAffine)
        ensures
            r@ == (GinPoint { x: (-self@.x) % fp_order(), y: self@.y }),
            gin_in_group(self@) ==> gin_is_pow(r@, (-gin_log(self@)) % fs_order()),
    {
        let r = -ark_ed_on_bls12_381::EdwardsAffine::new_unchecked(
            ark_bls12_381::Fr::new(ark_ff::BigInt(self.x.limbs())),
            ark_bls12_381::Fr::new(ark_ff::BigInt(self.y.limbs())),
        );
        GinAffine {
            x: Fp::from_limbs(r.x.into_bigint().0),
            y: Fp::from_limbs(r.y.into_bigint().0),
        }
    }

    /// `(-x, y)`.
    pub fn negate(&self) -> (r: GinAffine)
        ensures
            r@ == gin_neg(self@),
            gin_in_group(self@) ==> gin_is_pow(r@, (-gin_log(self@)) % fs_order()),
    {
        self.ark_neg()
    }

    /// `JubjubConfig::COEFF_A`: `a` of the curve equation.
    #[verifier::external_body]
    pub(crate) fn coeff_a() -> (r: Fp)
        ensures
            r@ == ed_a(),
    {
        let v = <ark_ed_on_bls12_381::JubjubConfig as TECurveConfig>::COEFF_A;
        Fp::from_limbs(v.into_bigint().0)
    }

    /// `JubjubConfig::COEFF_D`: `d` of the curve equation.
    #[verifier::external_body]
    pub(crate) fn coeff_d() -> (r: Fp)
        ensures
            r@ == ed_d(),
    {
        let v = <ark_ed_on_bls12_381::JubjubConfig as TECurveConfig>::COEFF_D;
        Fp::from_limbs(v.into_bigint().0)
    }

    /// `ark_ec`: the generator of the prime-order subgroup of Jubjub, a curve over
    /// the prime field `F_p`. The addition law of the curve is complete, so that it
    /// gives the sum of any two multiples of the generator.
    #[verifier::external_body]
    fn ark_generator() -> (r: GinAffine)
        ensures
            gin_generates(r@),
    {
        let r = ark_ed_on_bls12_381::EdwardsAffine::generator();
        GinAffine {
            x: Fp::from_limbs(r.x.into_bigint().0),
            y: Fp::from_limbs(r.y.into_bigint().0),
        }
    }

    /// `ark_ec`: the generator taken `s` times.
    #[verifier::external_body]
    fn ark_generator_mul(s: &Fs) -> (r: GinAffine)
        ensures
            r@ == gin_pow(s@),
            gin_is_pow(r@, s@),
    {
        let k = ark_ed_on_bls12_381::Fr::new(ark_ff::BigInt(s.limbs()));
        let r = (ark_ed_on_bls12_381::EdwardsProjective::generator() * k).into_affine();
        GinAffine {
            x: Fp::from_limbs(r.x.into_bigint().0),
            y: Fp::from_limbs(r.y.into_bigint().0),
        }
    }

    /// `ark_ec`: a pair of coordinates taken `k` times, in extended coordinates. Of a point of
    /// the curve the result is one. In the prime-order subgroup the exponent is multiplied by
    /// `k`; as the order is prime, the result is the neutral element only for `k = 0` or the
    /// neutral element.
    #[verifier::external_body]
    fn ark_scale(&self, k: &Fs) -> (r: GinProj)
        ensures
            r@ == gin_scale_ext(self@, k@),
            gin_on_curve(self@) ==> ext_on_curve(r@),
            gin_in_group(self@) ==> gin_is_pow(
                ext_affine(r@),
                (gin_log(self@) * k@) % fs_order(),
            ),
            gin_in_group(self@) && self@ != gin_identity() && k@ != 0 ==> ext_affine(r@)
                != gin_identity(),
    {
        let p = ark_ed_on_bls12_381::EdwardsAffine::new_unchecked(
            ark_bls12_381::Fr::new(ark_ff::BigInt(self.x.limbs())),
            ark_bls12_381::Fr::new(ark_ff::BigInt(self.y.limbs())),
        );
        let k = ark_ed_on_bls12_381::Fr::new(ark_ff::BigInt(k.limbs()));
        let r = ark_ed_on_bls12_381::EdwardsProjective::from(p) * k;
        GinProj {
            x: Fp::from_limbs(r.x.into_bigint().0),
            y: Fp::from_limbs(r.y.into_bigint().0),
            t: Fp::from_limbs(r.t.into_bigint().0),
            z: Fp::from_limbs(r.z.into_bigint().0),
        }
    }

    /// `ark_serialize::Valid::check`: whether the coordinates are those of a
    /// point of the prime-order subgroup.
    #[verifier::external_body]
    fn ark_check(&self) -> (r: bool)
        ensures
            r == gin_in_group(self@),
    {
        let p = ark_ed_on_bls12_381::EdwardsAffine::new_unchecked(
            ark_bls12_381::Fr::new(ark_ff::BigInt(self.x.limbs())),
            ark_bls12_381::Fr::new(ark_ff::BigInt(self.y.limbs())),
        );
        p.check().is_ok()
    }

    /// `ark_serialize`: the compressed form of a point, 32 bytes.
    #[verifier::external_body]
    pub(crate) fn ark_bytes(&self) -> (r: Vec<u8>)
        ensures
            r@ == gin_bytes(self@),
            r@.len() == 32,
    {
        let p = ark_ed_on_bls12_381::EdwardsAffine::new_unchecked(
            ark_bls12_381::Fr::new(ark_ff::BigInt(self.x.limbs())),
            ark_bls12_381::Fr::new(ark_ff::BigInt(self.y.limbs())),
        );
        let mut buf = Vec::new();
        p.serialize_compressed(&mut buf).expect("serialize");
        buf
    }

    /// The extended coordinates `(x, y, x·y, 1)`.
    pub fn to_proj(&self) -> (r: GinProj)
        ensures
            r@ == ext_of(self@),
            gin_on_curve(self@) ==> ext_on_curve(r@),
            ext_affine(r@) == self@,
    {
        proof {
            lemma_ext_of(*self);
        }
        GinProj { x: self.x, y: self.y, t: self.x * self.y, z: Fp::one() }
    }

    /// `self + other`; `None` where the sum has no coordinates.
    pub fn try_plus(&self, other: &GinAffine) -> (r: Option<GinAffine>)
        ensures
            r is Some <==> sum_defined(self@, other@),
            r matches Some(s) ==> sum_is(self@, other@, s@),
    {
        let p = self.to_proj();
        let e = p.plus(other);
        proof {
            reveal(gin_sum);
        }
        if e.z.is_zero() {
            return None;
        }
        let s = e.into_affine();
        proof {
            lemma_fp_range(self.x);
            lemma_fp_range(self.y);
            lemma_ed_sum(self@, other@);
        }
        Some(s)
    }

    /// `self + other`.
    pub fn plus(&self, other: &GinAffine) -> (r: GinAffine)
        requires
            sum_defined(self@, other@),
        ensures
            sum_is(self@, other@, r@),
    {
        self.try_plus(other).unwrap()
    }

    /// `2·self`; `None` where the double has no coordinates.
    pub fn try_double(&self) -> (r: Option<GinAffine>)
        ensures
            r is Some <==> double_defined(self@),
            r matches Some(s) ==> double_is(self@, s@),
    {
        let p = self.to_proj();
        let e = p.double();
        proof {
            reveal(gin_double);
        }
        if e.z.is_zero() {
            None
        } else {
            Some(e.into_affine())
        }
    }

    /// `2·self`.
    pub fn double(&self) -> (r: GinAffine)
        requires
            double_defined(self@),
        ensures
            double_is(self@, r@),
    {
        self.try_double().unwrap()
    }

    /// `k·self` in extended coordinates.
    pub fn times_proj(&self, k: &Fs) -> (r: GinProj)
        ensures
            r@ == gin_scale_ext(self@, k@),
            gin_on_curve(self@) ==> ext_on_curve(r@),
            gin_in_group(self@) ==> gin_is_pow(
                ext_affine(r@),
                (gin_log(self@) * k@) % fs_order(),
            ),
    {
        self.ark_scale(k)
    }

    /// `k·self`; `None` where the multiple has no coordinates.
    pub fn try_times(&self, k: &Fs) -> (r: Option<GinAffine>)
        ensures
            r is Some <==> scale_defined(self@, k@),
            r matches Some(s) ==> scale_is(self@, k@, s@),
    {
        let e = self.ark_scale(k);
        proof {
            reveal(gin_scale);
        }
        if e.z.is_zero() {
            None
        } else {
            Some(e.into_affine())
        }
    }

    /// `k·self`.
    pub fn times(&self, k: &Fs) -> (r: GinAffine)
        requires
            scale_defined(self@, k@),
        ensures
            scale_is(self@, k@, r@),
    {
        self.try_times(k).unwrap()
    }

    /// `a·x² + y² = 1 + d·x²·y²`.
    pub fn is_on_curve(&self) -> (r: bool)
        ensures
            r == gin_on_curve(self@),
    {
        let x2 = self.x.square();
        let y2 = self.y.square();
        let a = GinAffine::coeff_a();
        let d = GinAffine::coeff_d();
        let ax = a * x2;
        let lhs = ax + y2;
        let xy = x2 * y2;
        let dxy = d * xy;
        let rhs = Fp::one() + dxy;
        proof {
            let m = fp_order();
            lemma_fp_order();
            let (x, y) = (self.x@, self.y@);
            lemma_cong_mod(x * x, m);
            lemma_cong_mod(y * y, m);
            lemma_cong_mul(ed_a(), ed_a(), x2@, x * x, m);
            lemma_cong_mod(ed_a() * x2@, m);
            lemma_cong_add(ax@, ed_a() * (x * x), y2@, y * y, m);
            lemma_cong_mul(x2@, x * x, y2@, y * y, m);
            lemma_cong_mod(x2@ * y2@, m);
            lemma_cong_mul(ed_d(), ed_d(), xy@, (x * x) * (y * y), m);
            lemma_cong_mod(ed_d() * xy@, m);
            lemma_cong_add(1, 1, dxy@, ed_d() * ((x * x) * (y * y)), m);
        }
        lhs == rhs
    }
}

/// A point of Jubjub in extended coordinates.
#[derive(Clone, Copy, Debug)]
pub struct GinProj {
    pub x: Fp,
    pub y: Fp,
    pub t: Fp,
    pub z: Fp,
}

impl View for GinProj {
    type V = GinExt;

    open spec fn view(&self) -> GinExt {
        GinExt { x: self.x@, y: self.y@, t: self.t@, z: self.z@ }
    }
}

impl GinProj {
    /// `ark_ec`: the sum of a point in extended coordinates and a normalised one, by the
    /// unified addition formulas. They are complete: the sum of two points of the curve is
    /// one. In the prime-order subgroup the exponents add up.
    #[verifier::external_body]
    fn ark_sum(&self, other: &GinAffine) -> (r: GinProj)
        ensures
            r@ == ext_sum(self@, other@),
            ext_on_curve(self@) && gin_on_curve(other@) ==> ext_on_curve(r@),
            ext_on_curve(self@) && gin_in_group(ext_affine(self@)) && gin_in_group(other@)
                ==> gin_is_pow(
                ext_affine(r@),
                (gin_log(ext_affine(self@)) + gin_log(other@)) % fs_order(),
            ),
    {
        let f = |v: &Fp| ark_bls12_381::Fr::new(ark_ff::BigInt(v.limbs()));
        let p = ark_ed_on_bls12_381::EdwardsProjective::new_unchecked(
            f(&self.x),
            f(&self.y),
            f(&self.t),
            f(&self.z),
        );
        let q = ark_ed_on_bls12_381::EdwardsAffine::new_unchecked(f(&other.x), f(&other.y));
        let r = p + q;
        let [x, y, t, z] = [r.x, r.y, r.t, r.z].map(|v| Fp::from_limbs(v.into_bigint().0));
        GinProj { x, y, t, z }
    }

    /// `ark_ec`: the double of a point in extended coordinates. That of a point of the curve is
    /// one, and doubling three times clears the cofactor 8: the result is in the prime-order
    /// subgroup.
    #[verifier::external_body]
    fn ark_double(&self) -> (r: GinProj)
        ensures
            r@ == ext_double(self@),
            ext_on_curve(self@) ==> ext_on_curve(r@) && ed_sum(
                ext_affine(self@),
                ext_affine(self@),
                ext_affine(r@),
            ),
            ext_on_curve(self@) && gin_in_group(ext_affine(self@)) ==> gin_is_pow(
                ext_affine(r@),
                (2 * gin_log(ext_affine(self@))) % fs_order(),
            ),
            ext_on_curve(self@) ==> forall|q: GinPoint|
                gin_on_curve(q) && ext_affine(self@) == #[trigger] gin_double(gin_double(q))
                    ==> gin_in_group(ext_affine(r@)),
    {
        let f = |v: &Fp| ark_bls12_381::Fr::new(ark_ff::BigInt(v.limbs()));
        let p = ark_ed_on_bls12_381::EdwardsProjective::new_unchecked(
            f(&self.x),
            f(&self.y),
            f(&self.t),
            f(&self.z),
        );
        let r = p.double();
        let [x, y, t, z] = [r.x, r.y, r.t, r.z].map(|v| Fp::from_limbs(v.into_bigint().0));
        GinProj { x, y, t, z }
    }

    /// `ark_ec`: equality of points in extended coordinates, by cross-multiplication.
    #[verifier::external_body]
    fn ark_eq(&self, other: &GinProj) -> (r: bool)
        ensures
            r == ext_eq(self@, other@),
    {
        let f = |v: &Fp| ark_bls12_381::Fr::new(ark_ff::BigInt(v.limbs()));
        let p = ark_ed_on_bls12_381::EdwardsProjective::new_unchecked(
            f(&self.x),
            f(&self.y),
            f(&self.t),
            f(&self.z),
        );
        let q = ark_ed_on_bls12_381::EdwardsProjective::new_unchecked(
            f(&other.x),
            f(&other.y),
            f(&other.t),
            f(&other.z),
        );
        p == q
    }

    /// `self + other`.
    pub fn plus(&self, other: &GinAffine) -> (r: GinProj)
        ensures
            r@ == ext_sum(self@, other@),
            ext_on_curve(self@) && gin_on_curve(other@) ==> ext_on_curve(r@),
            ext_on_curve(self@) && gin_in_group(ext_affine(self@)) && gin_in_group(other@)
                ==> gin_is_pow(
                ext_affine(r@),
                (gin_log(ext_affine(self@)) + gin_log(other@)) % fs_order(),
            ),
    {
        self.ark_sum(other)
    }

    /// `2·self`.
    pub fn double(&self) -> (r: GinProj)
        ensures
            r@ == ext_double(self@),
            ext_on_curve(self@) ==> ext_on_curve(r@) && ed_sum(
                ext_affine(self@),
                ext_affine(self@),
                ext_affine(r@),
            ),
            ext_on_curve(self@) && gin_in_group(ext_affine(self@)) ==> gin_is_pow(
                ext_affine(r@),
                (2 * gin_log(ext_affine(self@))) % fs_order(),
            ),
            ext_on_curve(self@) ==> forall|q: GinPoint|
                gin_on_curve(q) && ext_affine(self@) == #[trigger] gin_double(gin_double(q))
                    ==> gin_in_group(ext_affine(r@)),
    {
        self.ark_double()
    }

    /// Whether both are the same point.
    pub fn same(&self, other: &GinProj) -> (r: bool)
        ensures
            r == ext_eq(self@, other@),
    {
        self.ark_eq(other)
    }

    /// `(x/z, y/z)`.
    pub fn into_affine(&self) -> (r: GinAffine)
        requires
            self@.z != 0,
        ensures
            r@ == ext_affine(self@),
            invertible(self@.z),
    {
        let v = self.z.inverse().unwrap();
        proof {
            lemma_fp_order();
            lemma_mod_reduced(1, fp_order());
            lemma_inv_unique(self@.z, v@);
            lemma_inv(self@.z);
            lemma_fp_range(v);
            lemma_cong_small(inv(self@.z), v@, fp_order());
        }
        GinAffine { x: self.x * v, y: self.y * v }
    }
}

/// On the curve, extended coordinates are equal exactly where the points are.
pub proof fn lemma_ext_eq(e: GinProj, f: GinProj)
    requires
        ext_on_curve(e@),
        ext_on_curve(f@),
    ensures
        ext_eq(e@, f@) <==> ext_affine(e@) == ext_affine(f@),
{
    let m = fp_order();
    lemma_fp_order();
    lemma_ext_zero(e);
    lemma_ext_zero(f);
    let (v, w) = (inv(e@.z), inv(f@.z));
    lemma_inv(e@.z);
    lemma_inv(f@.z);
    lemma_cross(e@.x, e@.z, v, f@.x, f@.z, w, m);
    lemma_cross(e@.y, e@.z, v, f@.y, f@.z, w, m);
}

/// `x1/z1 = x2/z2` exactly where `x1·z2 = x2·z1`.
proof fn lemma_cross(x1: int, z1: int, v1: int, x2: int, z2: int, v2: int, m: int)
    requires
        m > 1,
        cong(z1 * v1, 1, m),
        cong(z2 * v2, 1, m),
    ensures
        cong(x1 * z2, x2 * z1, m) <==> (x1 * v1) % m == (x2 * v2) % m,
{
    if cong(x1 * z2, x2 * z1, m) {
        lemma_cong_mul(x1 * z2, x2 * z1, v1 * v2, v1 * v2, m);
        assert((x1 * z2) * (v1 * v2) == (x1 * v1) * (z2 * v2)) by (nonlinear_arith);
        assert((x2 * z1) * (v1 * v2) == (x2 * v2) * (z1 * v1)) by (nonlinear_arith);
        lemma_cong_mul(x1 * v1, x1 * v1, z2 * v2, 1, m);
        lemma_cong_mul(x2 * v2, x2 * v2, z1 * v1, 1, m);
        assert((x1 * v1) * 1 == x1 * v1 && (x2 * v2) * 1 == x2 * v2);
    }
    if (x1 * v1) % m == (x2 * v2) % m {
        assert(cong(x1 * v1, x2 * v2, m));
        lemma_cong_mul(x1 * v1, x2 * v2, z1 * z2, z1 * z2, m);
        assert((x1 * v1) * (z1 * z2) == (x1 * z2) * (z1 * v1)) by (nonlinear_arith);
        assert((x2 * v2) * (z1 * z2) == (x2 * z1) * (z2 * v2)) by (nonlinear_arith);
        lemma_cong_mul(x1 * z2, x1 * z2, z1 * v1, 1, m);
        lemma_cong_mul(x2 * z1, x2 * z1, z2 * v2, 1, m);
        assert((x1 * z2) * 1 == x1 * z2 && (x2 * z1) * 1 == x2 * z1);
    }
}

/// On the curve, the neutral element is known by its extended coordinates.
proof fn lemma_ext_zero(e: GinProj)
    requires
        ext_on_curve(e@),
    ensures
        ext_is_zero(e@) <==> ext_affine(e@) == gin_identity(),
{
    let m = fp_order();
    lemma_fp_order();
    lemma_mod_reduced(0, m);
    lemma_mod_reduced(1, m);
    let (x, y, t, z) = (e@.x, e@.y, e@.t, e@.z);
    let v = inv(z);
    lemma_inv(z);
    lemma_fp_range(e.x);
    lemma_fp_range(e.y);
    lemma_fp_range(e.t);
    lemma_fp_range(e.z);
    assert(0 * v == 0);
    assert(1 * z == z && 1 * 1 == 1 && 0 * z == 0);
    lemma_cross(x, z, v, 0, 1, 1, m);
    lemma_cross(y, z, v, 1, 1, 1, m);
    assert(x * 1 == x && y * 1 == y);
    if ext_affine(e@) == gin_identity() {
        lemma_cong_small(x, 0, m);
        lemma_cong_small(y, z, m);
        // z·t = x·y = 0
        assert(x * y == 0) by (nonlinear_arith)
            requires
                x == 0,
        ;
        lemma_cong_mul(z * t, 0, v, v, m);
        assert((z * t) * v == t * (z * v)) by (nonlinear_arith);
        lemma_cong_mul(t, t, z * v, 1, m);
        assert(t * 1 == t);
        lemma_cong_small(t, 0, m);
    }
}

// ─── G_out ──────────────────────────────────────────────────────────────────

/// The integer whose six limbs, least significant first, are `l`.
pub open spec fn limbs6_value(l: Seq<u64>) -> int {
    l[0] + 0x1_0000_0000_0000_0000int * (l[1] + 0x1_0000_0000_0000_0000int * (l[2]
        + 0x1_0000_0000_0000_0000int * (l[3] + 0x1_0000_0000_0000_0000int * (l[4]
        + 0x1_0000_0000_0000_0000int * l[5]))))
}

/// The characteristic of `G_out`.
#[verifier::opaque]
pub open spec fn fq_order() -> int {
    0x1a0111ea397fe69a4b1ba7b6434bacd764774b84f38512bf6730d2a0f6b0f6241eabfffeb153ffffb9feffffffffaaabint
}

/// A pair of coordinates over the 381-bit base field of BLS12-381, meant to be a
/// point of `G1`, or the point at infinity.
///
/// The coordinates are below the characteristic, and those of the point at
/// infinity are zero, so that a point has one form only.
#[derive(Clone, Copy, Debug)]
pub struct GoutAffine {
    x: [u64; 6],
    y: [u64; 6],
    infinity: bool,
}

/// Points are kept normalised: an accumulator has the form of any other point.
pub type GoutProj = GoutAffine;

impl View for GoutAffine {
    type V = GoutPoint;

    closed spec fn view(&self) -> GoutPoint {
        GoutPoint {
            x: limbs6_value(self.x@),
            y: limbs6_value(self.y@),
            infinity: self.infinity,
        }
    }
}

/// Limbs are the digits of their value.
proof fn lemma_limbs6_injective(a: Seq<u64>, b: Seq<u64>)
    requires
        limbs6_value(a) == limbs6_value(b),
    ensures
        a[0] == b[0] && a[1] == b[1] && a[2] == b[2] && a[3] == b[3] && a[4] == b[4] && a[5]
            == b[5],
{
    let w: int = 0x1_0000_0000_0000_0000;
    let (a4, b4) = (a[4] + w * a[5], b[4] + w * b[5]);
    let (a3, b3) = (a[3] + w * a4, b[3] + w * b4);
    let (a2, b2) = (a[2] + w * a3, b[2] + w * b3);
    let (a1, b1) = (a[1] + w * a2, b[1] + w * b2);
    assert(a[0] == b[0] && a1 == b1);
    assert(a[1] == b[1] && a2 == b2);
    assert(a[2] == b[2] && a3 == b3);
    assert(a[3] == b[3] && a4 == b4);
}

fn limbs6_equal(a: &[u64; 6], b: &[u64; 6]) -> (r: bool)
    ensures
        r == (limbs6_value(a@) == limbs6_value(b@)),
{
    proof {
        if limbs6_value(a@) == limbs6_value(b@) {
            lemma_limbs6_injective(a@, b@);
        }
    }
    a[0] == b[0] && a[1] == b[1] && a[2] == b[2] && a[3] == b[3] && a[4] == b[4] && a[5] == b[5]
}

impl PartialEq for GoutAffine {
    fn eq(&self, other: &GoutAffine) -> (r: bool) {
        limbs6_equal(&self.x, &other.x) && limbs6_equal(&self.y, &other.y) && self.infinity
            == other.infinity
    }
}

impl PartialEqSpecImpl for GoutAffine {
    open spec fn obeys_eq_spec() -> bool {
        true
    }

    open spec fn eq_spec(&self, other: &GoutAffine) -> bool {
        self@ == other@
    }
}

impl Eq for GoutAffine {

}

impl GoutAffine {
    #[verifier::type_invariant]
    closed spec fn normal(self) -> bool {
        &&& limbs6_value(self.x@) < fq_order()
        &&& limbs6_value(self.y@) < fq_order()
        &&& self.infinity ==> limbs6_value(self.x@) == 0 && limbs6_value(self.y@) == 0
    }

    /// `ark_ff::PrimeField::from_bigint`: whether an integer is below the
    /// characteristic.
    #[verifier::external_body]
    fn ark_is_reduced(limbs: &[u64; 6]) -> (r: bool)
        ensures
            r == (limbs6_value(limbs@) < fq_order()),
    {
        ark_bls12_381::Fq::from_bigint(ark_ff::BigInt(*limbs)).is_some()
    }

    /// `ark_ec`: the generator of `G1`.
    #[verifier::external_body]
    fn ark_generator() -> (r: GoutAffine)
        ensures
            gout_is_pow(r@, 1),
    {
        let r = ark_bls12_381::G1Affine::generator();
        GoutAffine { x: r.x.into_bigint().0, y: r.y.into_bigint().0, infinity: r.infinity }
    }

    /// `ark_ec`: the point at infinity, the neutral element of `G1` and of the group of all
    /// points of the curve.
    #[verifier::external_body]
    fn ark_zero() -> (r: GoutAffine)
        ensures
            r@ == gout_identity(),
            gout_is_pow(r@, 0),
            gout_group(r@),
    {
        let r = ark_bls12_381::G1Affine::identity();
        GoutAffine { x: r.x.into_bigint().0, y: r.y.into_bigint().0, infinity: r.infinity }
    }

    /// `ark_ec`: the generator taken `s` times.
    #[verifier::external_body]
    fn ark_generator_mul(s: &Fp) -> (r: GoutAffine)
        ensures
            r@ == gout_pow(s@),
            gout_is_pow(r@, s@),
    {
        let k = ark_bls12_381::Fr::new(ark_ff::BigInt(s.limbs()));
        let r = (ark_bls12_381::G1Projective::generator() * k).into_affine();
        GoutAffine { x: r.x.into_bigint().0, y: r.y.into_bigint().0, infinity: r.infinity }
    }

    /// `ark_ec`: a point taken `k` times; zero times any point is the neutral element.
    #[verifier::external_body]
    fn ark_scale(&self, k: &Fp) -> (r: GoutAffine)
        ensures
            r@ == gout_scale(self@, k@),
            gout_scale_is(self@, k@, r@),
    {
        let p = ark_bls12_381::G1Affine {
            x: ark_bls12_381::Fq::new(ark_ff::BigInt(self.x)),
            y: ark_bls12_381::Fq::new(ark_ff::BigInt(self.y)),
            infinity: self.infinity,
        };
        let k = ark_bls12_381::Fr::new(ark_ff::BigInt(k.limbs()));
        let r = (ark_bls12_381::G1Projective::from(p) * k).into_affine();
        GoutAffine { x: r.x.into_bigint().0, y: r.y.into_bigint().0, infinity: r.infinity }
    }

    /// `ark_ec::PrimeGroup::mul_bits_be`: a point taken `k` times, by doubling
    /// and adding, which gives the `k`-fold sum of any point of the curve. Zero times any point
    /// is the neutral element.
    #[verifier::external_body]
    fn ark_scale_bits(&self, k: u32) -> (r: GoutAffine)
        ensures
            r@ == gout_scale_bits(self@, k as int),
            k == 0 ==> r@ == gout_identity(),
            gout_on_curve(self@) ==> r@ == gout_multiple(self@, k as nat),
            gout_in_group(self@) ==> gout_is_pow(r@, (gout_log(self@) * k) % fp_order()),
    {
        let p = ark_bls12_381::G1Affine {
            x: ark_bls12_381::Fq::new(ark_ff::BigInt(self.x)),
            y: ark_bls12_381::Fq::new(ark_ff::BigInt(self.y)),
            infinity: self.infinity,
        };
        let bits = ark_ff::BitIteratorBE::new([k as u64]);
        let r = ark_bls12_381::G1Projective::from(p).mul_bits_be(bits).into_affine();
        GoutAffine { x: r.x.into_bigint().0, y: r.y.into_bigint().0, infinity: r.infinity }
    }

    /// `ark_ec`: the sum of two points. Adding the point at infinity changes nothing.
    #[verifier::external_body]
    fn ark_sum(&self, other: &GoutAffine) -> (r: GoutAffine)
        ensures
            r@ == gout_sum(self@, other@),
            gout_sum_is(self@, other@, r@),
    {
        let p = ark_bls12_381::G1Affine {
            x: ark_bls12_381::Fq::new(ark_ff::BigInt(self.x)),
            y: ark_bls12_381::Fq::new(ark_ff::BigInt(self.y)),
            infinity: self.infinity,
        };
        let q = ark_bls12_381::G1Affine {
            x: ark_bls12_381::Fq::new(ark_ff::BigInt(other.x)),
            y: ark_bls12_381::Fq::new(ark_ff::BigInt(other.y)),
            infinity: other.infinity,
        };
        let r = (ark_bls12_381::G1Projective::from(p) + q).into_affine();
        GoutAffine { x: r.x.into_bigint().0, y: r.y.into_bigint().0, infinity: r.infinity }
    }

    /// `ark_ec::VariableBaseMSM::msm`: `∑ scalars[i] · bases[i]`.
    #[verifier::external_body]
    fn ark_msm(bases: &[GoutAffine], scalars: &[Fp]) -> (r: GoutAffine)
        requires
            bases@.len() == scalars@.len(),
        ensures
            r@ == gout_msm(gouts(bases@), fps(scalars@)),
            gout_msm_is(gouts(bases@), fps(scalars@), r@),
    {
        let f = |l| ark_bls12_381::Fq::new(ark_ff::BigInt(l));
        let b: Vec<ark_bls12_381::G1Affine> = bases.iter().map(
            |p| ark_bls12_381::G1Affine { x: f(p.x), y: f(p.y), infinity: p.infinity },
        ).collect();
        let s: Vec<ark_bls12_381::Fr> = scalars.iter().map(
            |k| ark_bls12_381::Fr::new(ark_ff::BigInt(k.limbs())),
        ).collect();
        let r = ark_bls12_381::G1Projective::msm(&b, &s).expect("msm").into_affine();
        GoutAffine { x: r.x.into_bigint().0, y: r.y.into_bigint().0, infinity: r.infinity }
    }

    /// `ark_serialize::Valid::check`: whether the coordinates are those of a
    /// point of the prime-order subgroup.
    #[verifier::external_body]
    fn ark_check(&self) -> (r: bool)
        ensures
            r == gout_in_group(self@),
    {
        let p = ark_bls12_381::G1Affine {
            x: ark_bls12_381::Fq::new(ark_ff::BigInt(self.x)),
            y: ark_bls12_381::Fq::new(ark_ff::BigInt(self.y)),
            infinity: self.infinity,
        };
        p.check().is_ok()
    }

    /// `ark_serialize`: the compressed form of a point, 48 bytes.
    #[verifier::external_body]
    pub(crate) fn ark_bytes(&self) -> (r: Vec<u8>)
        ensures
            r@ == gout_bytes(self@),
            r@.len() == 48,
    {
        let p = ark_bls12_381::G1Affine {
            x: ark_bls12_381::Fq::new(ark_ff::BigInt(self.x)),
            y: ark_bls12_381::Fq::new(ark_ff::BigInt(self.y)),
            infinity: self.infinity,
        };
        let mut buf = Vec::new();
        p.serialize_compressed(&mut buf).expect("serialize");
        buf
    }

    /// `ark_ec::hashing`: hash-to-curve for `G1` by the Wahby-Boneh map, with
    /// SHA-256 and a domain separator. That the point is in the prime-order group is
    /// left unsaid: the map has exceptional inputs.
    #[verifier::external_body]
    pub(crate) fn ark_hash(domain: &[u8], msg: &[u8]) -> (r: GoutAffine)
        ensures
            r@ == gout_hash(domain@, msg@),
    {
        let hasher = ark_ec::hashing::map_to_curve_hasher::MapToCurveBasedHasher::<
            ark_bls12_381::G1Projective,
            ark_ff::field_hashers::DefaultFieldHasher<sha2::Sha256, 128>,
            ark_ec::hashing::curve_maps::wb::WBMap<ark_bls12_381::g1::Config>,
        >::new(domain).expect("hasher init");
        let r = hasher.hash(msg).expect("hash to curve");
        GoutAffine { x: r.x.into_bigint().0, y: r.y.into_bigint().0, infinity: r.infinity }
    }

    /// The point with the given affine coordinates, each as the limbs of its
    /// canonical integer; `None` for a coordinate that is not canonical. Whether
    /// the point is on the curve is not looked at.
    pub fn new_unchecked(x: [u64; 6], y: [u64; 6]) -> (r: Option<GoutAffine>)
        ensures
            match r {
                Some(p) => limbs6_value(x@) < fq_order() && limbs6_value(y@) < fq_order() && p@ == (
                GoutPoint { x: limbs6_value(x@), y: limbs6_value(y@), infinity: false }),
                None => limbs6_value(x@) >= fq_order() || limbs6_value(y@) >= fq_order(),
            },
    {
        if GoutAffine::ark_is_reduced(&x) && GoutAffine::ark_is_reduced(&y) {
            Some(GoutAffine { x, y, infinity: false })
        } else {
            None
        }
    }

    /// The neutral element.
    pub fn zero() -> (r: GoutAffine)
        ensures
            r@ == gout_identity(),
            gout_is_pow(r@, 0),
            gout_group(r@),
    {
        GoutAffine::ark_zero()
    }

    pub fn is_zero(&self) -> (r: bool)
        ensures
            r == (self@ == gout_identity()),
    {
        *self == GoutAffine::zero()
    }

    /// `self + other`.
    pub fn plus(&self, other: &GoutAffine) -> (r: GoutAffine)
        ensures
            gout_sum_is(self@, other@, r@),
    {
        self.ark_sum(other)
    }

    /// `k·self`.
    pub fn times(&self, k: &Fp) -> (r: GoutAffine)
        ensures
            gout_scale_is(self@, k@, r@),
    {
        self.ark_scale(k)
    }

    /// `k·self` for a small `k`.
    pub fn times_small(&self, k: u32) -> (r: GoutAffine)
        ensures
            r@ == gout_scale_bits(self@, k as int),
            k == 0 ==> r@ == gout_identity(),
            gout_on_curve(self@) ==> r@ == gout_multiple(self@, k as nat),
            gout_in_group(self@) ==> gout_is_pow(r@, (gout_log(self@) * k) % fp_order()),
    {
        self.ark_scale_bits(k)
    }

    /// `∑ scalars[i] · bases[i]`.
    pub fn msm(bases: &[GoutAffine], scalars: &[Fp]) -> (r: GoutAffine)
        requires
            bases@.len() == scalars@.len(),
        ensures
            gout_msm_is(gouts(bases@), fps(scalars@), r@),
    {
        GoutAffine::ark_msm(bases, scalars)
    }
}

/// Appends the points of `v`.
pub fn extend_gouts(dst: &mut Vec<GoutAffine>, v: &[GoutAffine])
    ensures
        final(dst)@ == old(dst)@ + v@,
{
    let ghost d0 = dst@;
    let mut i: usize = 0;
    while i < v.len()
        invariant
            i <= v@.len(),
            dst@ == d0 + v@.take(i as int),
        decreases v@.len() - i,
    {
        dst.push(v[i]);
        proof {
            assert(dst@ =~= d0 + v@.take(i + 1));
        }
        i = i + 1;
    }
    assert(v@.take(i as int) =~= v@);
}

// ─── functions on both groups ───────────────────────────────────────────────

/// `int(P.x)`: the affine x-coordinate of a `G_in` point as an element of `F_p`.
///
/// Jubjub is defined *over* `F_p`, so this is the coordinate itself; it is `0` for
/// the neutral element.
pub fn x_coord(p: &GinAffine) -> (r: Fp)
    ensures
        r@ == p.x@,
{
    if p.is_zero() {
        Fp::from(0u64)
    } else {
        p.x
    }
}

/// An `F_p` element reduced modulo `s`: the `int(·)` cast that drives `G_in`
/// exponentiations.
pub fn fp_to_fs(p: &Fp) -> (r: Fs)
    ensures
        r@ == p@ % fs_order(),
{
    let bytes = p.ark_bytes();
    proof {
        lemma_fp_range(*p);
        lemma_order_bytes();
        lemma_le_bytes_value(p@, 32);
    }
    Fs::from_le_bytes_mod_order(&bytes)
}

/// Generator of `G_in` (Jubjub prime-order subgroup).
pub fn gin_gen() -> (r: GinAffine)
    ensures
        gin_generates(r@),
{
    GinAffine::ark_generator()
}

/// Generator of `G_out` (BLS12-381 `G1`).
pub fn gout_gen() -> (r: GoutAffine)
    ensures
        gout_is_pow(r@, 1),
{
    GoutAffine::ark_generator()
}

/// `g_out^s` for `s ∈ F_p`.
pub fn gout_mul(s: &Fp) -> (r: GoutAffine)
    ensures
        gout_is_pow(r@, s@),
{
    GoutAffine::ark_generator_mul(s)
}

/// `g_in^s` for `s ∈ F_s`.
pub fn gin_mul(s: &Fs) -> (r: GinAffine)
    ensures
        gin_is_pow(r@, s@),
{
    GinAffine::ark_generator_mul(s)
}

/// `rayon`: computes a point for every index below `n`, in parallel, and keeps the points
/// in the order of the indices. Each is what `f` gives for its index.
#[verifier::external_body]
pub(crate) fn par_points<F: Fn(usize) -> GoutAffine + Send + Sync>(n: usize, f: F) -> (r: Vec<
    GoutAffine,
>)
    requires
        forall|i: usize| i < n ==> #[trigger] call_requires(f, (i,)),
    ensures
        r@.len() == n,
        forall|i: usize| i < n ==> call_ensures(f, (i,), #[trigger] r@[i as int]),
{
    (0..n).into_par_iter().map(f).collect()
}

/// A point of one of the two curves.
pub trait CurvePoint {
    /// The point is in the prime-order subgroup of its curve.
    spec fn in_prime_subgroup(&self) -> bool;

    fn check(&self) -> (r: bool)
        ensures
            r == self.in_prime_subgroup(),
    ;
}

impl CurvePoint for GinAffine {
    open spec fn in_prime_subgroup(&self) -> bool {
        gin_in_group(self@)
    }

    fn check(&self) -> (r: bool) {
        self.ark_check()
    }
}

impl CurvePoint for GoutAffine {
    open spec fn in_prime_subgroup(&self) -> bool {
        gout_in_group(self@)
    }

    fn check(&self) -> (r: bool) {
        self.ark_check()
    }
}

/// Prime-order-subgroup membership of a point.
///
/// Jubjub (cofactor 8) and `G1` (whose cofactor has the prime factor 3) both have
/// small-order subgroups, and points need not come from a checked encoding, so
/// every point that was received is tested on its own.
pub fn is_in_prime_subgroup<P: CurvePoint>(p: &P) -> (r: bool)
    ensures
        r == p.in_prime_subgroup(),
{
    p.check()
}

} // verus!
