//! Hash to `G_in` by try-and-increment with cofactor clearing, and hash to `F_p`.
//!
//! Each attempt takes a fresh y-coordinate from a hash; about half of them are those
//! of a point. The point is doubled three times to land in the prime-order subgroup.
//! This is not constant-time. `H₁` and `H₂` of a message are public points.
use crate::algebra::{
    cong, lemma_cong_add, lemma_cong_mod, lemma_cong_mul, lemma_cong_small, lemma_cong_sub,
    lemma_mod_reduced,
};
use crate::curves::{
    ed_a, ed_d, gin_double, gin_identity, gin_in_group, gin_on_curve, gout_is_pow, gout_mul, Fp,
    GinAffine, GinPoint, GoutAffine,
};
use crate::field::{
    fp_order, fp_sqrt, le_bytes, le_value, lemma_fp_order, lemma_fp_range, lemma_le_bytes_value,
    lemma_order_bytes,
};
use crate::lagrange::{inv, lemma_inv, lemma_inv_unique};
use sha2::Digest;
use vstd::bytes::{spec_u32_to_le_bytes, spec_u64_to_le_bytes, u32_to_le_bytes, u64_to_le_bytes};
use vstd::prelude::*;
use vstd::string::StringSliceAdditionalSpecFns;

verus! {

/// The SHA-512 digest of a message.
pub uninterp spec fn sha512(msg: Seq<u8>) -> Seq<u8>;

/// `sha2::Sha512`: the digest of a message, 64 bytes.
#[verifier::external_body]
pub(crate) fn sha512_digest(msg: &[u8]) -> (r: Vec<u8>)
    ensures
        r@ == sha512(msg@),
        r@.len() == 64,
{
    sha2::Sha512::digest(msg).to_vec()
}

/// Appends the bytes of `v`.
pub(crate) fn append_slice(dst: &mut Vec<u8>, v: &[u8])
    ensures
        final(dst)@ == old(dst)@ + v@,
{
    let ghost d0 = dst@;
    let mut i: usize = 0;
    while i < v.len()
        invariant
            i <= v@.len(),
            dst@ == d0 + v@.take(i as int),
        decreases v@.len() - i,
    {
        dst.push(v[i]);
        proof {
            assert(dst@ =~= d0 + v@.take(i + 1));
        }
        i = i + 1;
    }
    assert(v@.take(i as int) =~= v@);
}

// ─── what is hashed ─────────────────────────────────────────────────────────

/// Bytes with their length before them.
pub open spec fn sized(v: Seq<u8>) -> Seq<u8> {
    spec_u64_to_le_bytes(v.len() as u64) + v
}

/// What attempt `ctr` at a point hashes.
pub open spec fn point_input(domain: Seq<u8>, msg: Seq<u8>, ctr: u32) -> Seq<u8> {
    "golden-nidkg/h2c/v1".spec_bytes() + sized(domain) + sized(msg) + spec_u32_to_le_bytes(ctr)
}

/// What a field element is the hash of.
pub open spec fn field_input(domain: Seq<u8>, msg: Seq<u8>) -> Seq<u8> {
    "golden-nidkg/h2f/v1".spec_bytes() + sized(domain) + sized(msg)
}

/// A session and a message, as the input of `H₁` and `H₂`.
pub open spec fn session_input(sid: Seq<u8>, msg: Seq<u8>) -> Seq<u8> {
    sized(sid) + msg
}

/// The digest of a domain and a message, as an integer modulo `p`.
pub open spec fn field_hash(domain: Seq<u8>, msg: Seq<u8>) -> int {
    le_value(sha512(field_input(domain, msg))) % fp_order()
}

fn append_sized(dst: &mut Vec<u8>, v: &[u8])
    ensures
        final(dst)@ == old(dst)@ + sized(v@),
{
    let ghost d0 = dst@;
    let mut len = u64_to_le_bytes(v.len() as u64);
    dst.append(&mut len);
    append_slice(dst, v);
    assert(dst@ =~= d0 + sized(v@));
}

// ─── hashing to a point ─────────────────────────────────────────────────────

/// `a` comes before `b` in the lexicographic order, or is equal to it.
pub open spec fn lex_at_most(a: Seq<u8>, b: Seq<u8>) -> bool
    decreases a.len(),
{
    ||| a.len() == 0
    ||| b.len() > 0 && a[0] < b[0]
    ||| b.len() > 0 && a[0] == b[0] && lex_at_most(a.drop_first(), b.drop_first())
}

/// Of a root and its negation, the one whose little-endian bytes are lexicographically
/// smaller.
pub open spec fn smaller_root(r: int) -> int {
    if lex_at_most(le_bytes(r, 32), le_bytes((-r) % fp_order(), 32)) {
        r
    } else {
        (-r) % fp_order()
    }
}

/// The point with y-coordinate `y` whose x-coordinate is the smaller root, by
/// [`smaller_root`], of `(1 − y²) / (a − d·y²)`, where there is one.
pub open spec fn point_with_y(y: int) -> Option<GinPoint> {
    let num = (1 - y * y) % fp_order();
    let den = (ed_a() - ed_d() * (y * y)) % fp_order();
    if den == 0 {
        None
    } else {
        match fp_sqrt((num * inv(den)) % fp_order()) {
            Some(r) => Some(GinPoint { x: smaller_root(r), y }),
            None => None,
        }
    }
}

/// What attempt `ctr` gives: the point of the hashed y-coordinate, with its
/// cofactor cleared, unless it is the neutral element.
pub open spec fn attempt(domain: Seq<u8>, msg: Seq<u8>, ctr: u32) -> Option<GinPoint> {
    match point_with_y(le_value(sha512(point_input(domain, msg, ctr))) % fp_order()) {
        Some(p) => {
            let q = gin_double(gin_double(gin_double(p)));
            if q == gin_identity() {
                None
            } else {
                Some(q)
            }
        },
        None => None,
    }
}

/// The first attempt from `ctr` on that gives a point.
pub open spec fn first_point(domain: Seq<u8>, msg: Seq<u8>, ctr: u32) -> Option<GinPoint>
    decreases u32::MAX - ctr,
{
    match attempt(domain, msg, ctr) {
        Some(q) => Some(q),
        None => if ctr == u32::MAX {
            None
        } else {
            first_point(domain, msg, (ctr + 1) as u32)
        },
    }
}

/// The point that a domain and a message hash to.
pub open spec fn gin_hash(domain: Seq<u8>, msg: Seq<u8>) -> Option<GinPoint> {
    first_point(domain, msg, 0)
}

/// The point of `H₁` for a session and a message.
pub open spec fn h1_point(sid: Seq<u8>, msg: Seq<u8>) -> Option<GinPoint> {
    gin_hash("H1".spec_bytes(), session_input(sid, msg))
}

/// The point of `H₂` for a session and a message.
pub open spec fn h2_point(sid: Seq<u8>, msg: Seq<u8>) -> Option<GinPoint> {
    gin_hash("H2".spec_bytes(), session_input(sid, msg))
}

/// Of two byte strings of one length, one comes first, and both only if they are equal.
proof fn lemma_lex_order(a: Seq<u8>, b: Seq<u8>)
    requires
        a.len() == b.len(),
    ensures
        lex_at_most(a, b) || lex_at_most(b, a),
        lex_at_most(a, b) && lex_at_most(b, a) ==> a == b,
    decreases a.len(),
{
    if a.len() > 0 {
        lemma_lex_order(a.drop_first(), b.drop_first());
        if lex_at_most(a, b) && lex_at_most(b, a) {
            assert(a =~= seq![a[0]] + a.drop_first());
            assert(b =~= seq![b[0]] + b.drop_first());
        }
    } else {
        assert(a =~= b);
    }
}

/// The root that is chosen does not depend on which of the two roots one has, and it is
/// its own choice.
pub proof fn law_root_is_canonical(r: int)
    requires
        0 <= r < fp_order(),
    ensures
        smaller_root((-r) % fp_order()) == smaller_root(r),
        smaller_root(smaller_root(r)) == smaller_root(r),
        smaller_root(r) == r || smaller_root(r) == (-r) % fp_order(),
        cong(smaller_root(r) * smaller_root(r), r * r, fp_order()),
{
    let p = fp_order();
    lemma_fp_order();
    let n = (-r) % p;
    // −(−r) = r
    lemma_cong_mod(-r, p);
    lemma_cong_sub(0, 0, n, -r, p);
    lemma_mod_reduced(r, p);
    assert((-n) % p == r);
    lemma_cong_mul(n, -r, n, -r, p);
    assert((-r) * (-r) == r * r) by (nonlinear_arith);
    let (a, b) = (le_bytes(r, 32), le_bytes(n, 32));
    lemma_lex_order(a, b);
    lemma_order_bytes();
    lemma_le_bytes_value(r, 32);
    lemma_le_bytes_value(n, 32);
}

/// Whether `a` comes before `b` in the lexicographic order, or is equal to it.
fn bytes_at_most(a: &[u8], b: &[u8]) -> (r: bool)
    requires
        a@.len() == b@.len(),
    ensures
        r == lex_at_most(a@, b@),
{
    let mut i: usize = 0;
    proof {
        assert(a@.skip(0) =~= a@ && b@.skip(0) =~= b@);
    }
    while i < a.len()
        invariant
            i <= a@.len(),
            a@.len() == b@.len(),
            lex_at_most(a@, b@) == lex_at_most(a@.skip(i as int), b@.skip(i as int)),
        decreases a@.len() - i,
    {
        proof {
            assert(a@.skip(i as int).drop_first() =~= a@.skip(i + 1));
            assert(b@.skip(i as int).drop_first() =~= b@.skip(i + 1));
        }
        if a[i] != b[i] {
            return a[i] < b[i];
        }
        i = i + 1;
    }
    true
}

/// The canonical square root: the one whose little-endian bytes are lexicographically
/// smaller. Both roots of a square give the same one.
pub fn canonical_sqrt(r: Fp) -> (x: Fp)
    ensures
        x@ == smaller_root(r@),
        x@ == smaller_root((-r@) % fp_order()),
        cong(x@ * x@, r@ * r@, fp_order()),
{
    let neg = r.negate();
    proof {
        lemma_fp_range(r);
        law_root_is_canonical(r@);
    }
    let a = r.ark_bytes();
    let b = neg.ark_bytes();
    if bytes_at_most(a.as_slice(), b.as_slice()) {
        r
    } else {
        neg
    }
}

/// A point with the y-coordinate `y`.
fn lift_y(y: Fp) -> (r: Option<GinAffine>)
    ensures
        (match r {
            Some(p) => Some(p@),
            None => None,
        }) == point_with_y(y@),
        r matches Some(p) ==> gin_on_curve(p@),
{
    let a = GinAffine::coeff_a();
    let d = GinAffine::coeff_d();
    let y2 = y.square();
    let num = Fp::one() - y2;
    let dy = d * y2;
    let den = a - dy;
    let ghost m = fp_order();
    proof {
        lemma_fp_order();
        let yy = y@ * y@;
        lemma_cong_mod(yy, m);
        lemma_cong_sub(1, 1, y2@, yy, m);
        lemma_cong_mul(ed_d(), ed_d(), y2@, yy, m);
        lemma_cong_mod(ed_d() * y2@, m);
        lemma_cong_sub(ed_a(), ed_a(), dy@, ed_d() * yy, m);
    }
    let den_inv = match den.inverse() {
        Some(v) => v,
        None => {
            return None;
        },
    };
    proof {
        lemma_mod_reduced(1, m);
        lemma_inv_unique(den@, den_inv@);
        lemma_inv(den@);
        lemma_fp_range(den_inv);
        lemma_cong_small(inv(den@), den_inv@, m);
    }
    let x2 = num * den_inv;
    match x2.sqrt() {
        Some(root) => {
            let x = canonical_sqrt(root);
            proof {
                lemma_lift(x@, y@, root@, x2@, num@, den@, den_inv@);
            }
            Some(GinAffine::new_unchecked(x, y))
        },
        None => None,
    }
}

/// The coordinates of [`lift_y`] satisfy the curve equation.
proof fn lemma_lift(x: int, y: int, root: int, x2: int, num: int, den: int, v: int)
    requires
        cong(x * x, root * root, fp_order()),
        (root * root) % fp_order() == x2,
        x2 == (num * v) % fp_order(),
        num == (1 - y * y) % fp_order(),
        den == (ed_a() - ed_d() * (y * y)) % fp_order(),
        cong(den * v, 1, fp_order()),
    ensures
        gin_on_curve(GinPoint { x, y }),
{
    let m = fp_order();
    lemma_fp_order();
    let (xx, yy) = (x * x, y * y);
    let (a, d) = (ed_a(), ed_d());
    lemma_cong_mod(root * root, m);
    lemma_cong_mod(num * v, m);
    // x²·den ≡ num·v·den ≡ num
    assert(cong(xx, num * v, m));
    lemma_cong_mul(xx, num * v, den, den, m);
    assert((num * v) * den == num * (den * v)) by (nonlinear_arith);
    lemma_cong_mul(num, num, den * v, 1, m);
    assert(num * 1 == num);
    assert(cong(xx * den, num, m));
    lemma_cong_mod(1 - yy, m);
    lemma_cong_mod(a - d * yy, m);
    lemma_cong_mul(xx, xx, den, a - d * yy, m);
    assert(cong(xx * (a - d * yy), 1 - yy, m));
    let dy = d * yy;
    assert(xx * (a - dy) == a * xx - xx * dy) by (nonlinear_arith);
    assert(xx * (d * yy) == d * (xx * yy)) by (nonlinear_arith);
    let k = d * (xx * yy) + yy;
    lemma_cong_add(xx * (a - dy), 1 - yy, k, k, m);
}

fn try_attempt(domain: &[u8], msg: &[u8], ctr: u32) -> (r: Option<GinAffine>)
    ensures
        (match r {
            Some(p) => Some(p@),
            None => None,
        }) == attempt(domain@, msg@, ctr),
        r matches Some(p) ==> gin_in_group(p@) && gin_on_curve(p@) && p@ != gin_identity(),
{
    let mut input: Vec<u8> = Vec::new();
    append_slice(&mut input, "golden-nidkg/h2c/v1".as_bytes());
    append_sized(&mut input, domain);
    append_sized(&mut input, msg);
    let mut ctr_bytes = u32_to_le_bytes(ctr);
    input.append(&mut ctr_bytes);
    assert(input@ =~= point_input(domain@, msg@, ctr));
    let digest = sha512_digest(input.as_slice());
    let y = Fp::from_le_bytes_mod_order(digest.as_slice());
    match lift_y(y) {
        Some(p) => {
            let p2 = p.double();
            let p4 = p2.double();
            let q = p4.double();
            assert(p4@ == gin_double(gin_double(p@)));
            if q.is_zero() {
                None
            } else {
                Some(q)
            }
        },
        None => None,
    }
}

/// Hashes bytes, with a domain separator, to a non-identity point of the prime-order
/// subgroup of Jubjub. `None` if no attempt gives a point.
pub fn try_hash_to_gin(domain: &[u8], msg: &[u8]) -> (r: Option<GinAffine>)
    ensures
        (match r {
            Some(p) => Some(p@),
            None => None,
        }) == gin_hash(domain@, msg@),
        r matches Some(p) ==> gin_in_group(p@) && gin_on_curve(p@) && p@ != gin_identity(),
{
    let mut ctr: u32 = 0;
    loop
        invariant
            first_point(domain@, msg@, ctr) == gin_hash(domain@, msg@),
        decreases u32::MAX - ctr,
    {
        match try_attempt(domain, msg, ctr) {
            Some(p) => {
                return Some(p);
            },
            None => {
                if ctr == u32::MAX {
                    return None;
                }
                ctr = ctr + 1;
            },
        }
    }
}

/// [`try_hash_to_gin`] where it is known that an attempt gives a point.
pub fn hash_to_gin(domain: &[u8], msg: &[u8]) -> (r: GinAffine)
    requires
        gin_hash(domain@, msg@) is Some,
    ensures
        Some(r@) == gin_hash(domain@, msg@),
        gin_in_group(r@),
        gin_on_curve(r@),
        r@ != gin_identity(),
{
    try_hash_to_gin(domain, msg).unwrap()
}

fn session_bytes(sid: &[u8], msg: &[u8]) -> (r: Vec<u8>)
    ensures
        r@ == session_input(sid@, msg@),
{
    let mut input: Vec<u8> = Vec::new();
    append_sized(&mut input, sid);
    append_slice(&mut input, msg);
    assert(input@ =~= session_input(sid@, msg@));
    input
}

/// `H₁` for a session and a message; `None` if no attempt gives a point.
pub fn try_h1(sid: &[u8], msg: &[u8]) -> (r: Option<GinAffine>)
    ensures
        (match r {
            Some(p) => Some(p@),
            None => None,
        }) == h1_point(sid@, msg@),
        r matches Some(p) ==> gin_in_group(p@) && gin_on_curve(p@) && p@ != gin_identity(),
{
    let input = session_bytes(sid, msg);
    try_hash_to_gin("H1".as_bytes(), input.as_slice())
}

/// `H₂` for a session and a message; `None` if no attempt gives a point.
pub fn try_h2(sid: &[u8], msg: &[u8]) -> (r: Option<GinAffine>)
    ensures
        (match r {
            Some(p) => Some(p@),
            None => None,
        }) == h2_point(sid@, msg@),
        r matches Some(p) ==> gin_in_group(p@) && gin_on_curve(p@) && p@ != gin_identity(),
{
    let input = session_bytes(sid, msg);
    try_hash_to_gin("H2".as_bytes(), input.as_slice())
}

/// `H₁`, evaluated at a session and a message, so that different sessions have
/// independent base points.
pub fn h1(sid: &[u8], msg: &[u8]) -> (r: GinAffine)
    requires
        h1_point(sid@, msg@) is Some,
    ensures
        Some(r@) == h1_point(sid@, msg@),
        gin_in_group(r@),
        gin_on_curve(r@),
        r@ != gin_identity(),
{
    let input = session_bytes(sid, msg);
    hash_to_gin("H1".as_bytes(), input.as_slice())
}

/// `H₂`, evaluated at a session and a message.
pub fn h2(sid: &[u8], msg: &[u8]) -> (r: GinAffine)
    requires
        h2_point(sid@, msg@) is Some,
    ensures
        Some(r@) == h2_point(sid@, msg@),
        gin_in_group(r@),
        gin_on_curve(r@),
        r@ != gin_identity(),
{
    let input = session_bytes(sid, msg);
    hash_to_gin("H2".as_bytes(), input.as_slice())
}

// ─── hashing to a field element ─────────────────────────────────────────────

/// Hash to `F_p`.
pub fn hash_to_fp(domain: &[u8], msg: &[u8]) -> (r: Fp)
    ensures
        r@ == field_hash(domain@, msg@),
{
    let mut input: Vec<u8> = Vec::new();
    append_slice(&mut input, "golden-nidkg/h2f/v1".as_bytes());
    append_sized(&mut input, domain);
    append_sized(&mut input, msg);
    assert(input@ =~= field_input(domain@, msg@));
    let digest = sha512_digest(input.as_slice());
    Fp::from_le_bytes_mod_order(digest.as_slice())
}

/// Hash to `G_out` by hashing to `F_p` and multiplying the generator, so that the
/// discrete logarithm of the result is [`hash_to_fp`] of the input.
pub fn hash_to_gout_with_known_dlog(domain: &[u8], msg: &[u8]) -> (r: GoutAffine)
    ensures
        gout_is_pow(r@, field_hash(domain@, msg@)),
{
    let s = hash_to_fp(domain, msg);
    gout_mul(&s)
}

} // verus!
