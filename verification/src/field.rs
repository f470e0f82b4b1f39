//! The two prime fields of the library.
//!
//! ```text
//!   F_p = scalar field of BLS12-381 = base field of Jubjub     255 bits
//!   F_s = scalar field of Jubjub                               252 bits
//! ```
//!
//! An element is kept as the four 64-bit limbs of its canonical integer, least
//! significant first. Arithmetic is done by `ark-ff`.
use crate::algebra::{lemma_cong_mod, lemma_mod_reduced, lemma_pow_succ, lemma_sigma_eq, sigma};
use ark_ff::{AdditiveGroup, BigInteger, Field, PrimeField, UniformRand};
use ark_serialize::CanonicalSerialize;
use rand::rngs::StdRng;
use vstd::arithmetic::power::{lemma_pow0, lemma_pow_adds, lemma_pow_positive, pow};
use vstd::arithmetic::div_mod::{
    lemma_basic_div, lemma_breakdown, lemma_div_denominator, lemma_fundamental_div_mod,
    lemma_fundamental_div_mod_converse, lemma_mod_bound,
};
use vstd::arithmetic::power2::{
    lemma2_to64, lemma2_to64_rest, lemma_pow2, lemma_pow2_adds, lemma_pow2_pos,
    lemma_pow2_strictly_increases, lemma_pow2_unfold, pow2,
};
use vstd::bits::lemma_u64_shr_is_div;
use vstd::pervasive::arbitrary;
use vstd::prelude::*;
use vstd::std_specs::cmp::PartialEqSpecImpl;
use vstd::std_specs::convert::FromSpecImpl;
use vstd::std_specs::ops::{AddSpecImpl, MulSpecImpl, NegSpecImpl, SubSpecImpl};

verus! {

/// The order of `F_p`: the order of `G_out` and the characteristic of `G_in`.
#[verifier::opaque]
pub open spec fn fp_order() -> int {
    0x73eda753299d7d483339d80809a1d80553bda402fffe5bfeffffffff00000001int
}

/// The order of `F_s`: the order of the prime-order subgroup of `G_in`.
#[verifier::opaque]
pub open spec fn fs_order() -> int {
    0x0e7db4ea6533afa906673b0101343b00a6682093ccc81082d0970e5ed6f72cb7int
}

/// The integer whose limbs, least significant first, are `l`.
pub open spec fn limbs_value(l: Seq<u64>) -> int {
    l[0] + l[1] * 0x1_0000_0000_0000_0000int + l[2]
        * 0x1_0000_0000_0000_0000_0000_0000_0000_0000int + l[3]
        * 0x1_0000_0000_0000_0000_0000_0000_0000_0000_0000_0000_0000_0000int
}

/// The integer whose bytes, least significant first, are `s`.
pub open spec fn le_value(s: Seq<u8>) -> int {
    sigma(s.len(), |i: int| s[i] as int * pow(256, i as nat))
}

/// The `n` low bytes of `v`, least significant first.
pub open spec fn le_bytes(v: int, n: nat) -> Seq<u8> {
    Seq::new(n, |i: int| ((v / pow(256, i as nat)) % 256) as u8)
}

/// Bit `i` of `v`.
pub open spec fn bit(v: int, i: nat) -> bool {
    (v / pow2(i) as int) % 2 == 1
}

/// What the elements of `s` stand for.
pub open spec fn fps(s: Seq<Fp>) -> Seq<int> {
    Seq::new(s.len(), |i: int| s[i]@)
}

pub proof fn lemma_fp_order()
    ensures
        fp_order() > 0x1_0000_0000_0000_0000,
        fp_order() % 2 == 1,
{
    reveal(fp_order);
}

pub proof fn lemma_fs_order()
    ensures
        fs_order() > 0x1_0000_0000_0000_0000,
        fs_order() % 2 == 1,
        fs_order() < fp_order(),
{
    reveal(fs_order);
    reveal(fp_order);
}

/// `F_p`, the field that Shamir shares, pads and circuits live in.
#[derive(Clone, Copy, Debug)]
pub struct Fp {
    limbs: [u64; 4],
}

/// `F_s`, the field of `G_in` exponents.
#[derive(Clone, Copy, Debug)]
pub struct Fs {
    limbs: [u64; 4],
}

impl View for Fp {
    type V = int;

    /// The canonical integer, in `[0, p)`.
    closed spec fn view(&self) -> int {
        limbs_value(self.limbs@) % fp_order()
    }
}

impl View for Fs {
    type V = int;

    /// The canonical integer, in `[0, s)`.
    closed spec fn view(&self) -> int {
        limbs_value(self.limbs@) % fs_order()
    }
}

pub broadcast proof fn lemma_fp_range(a: Fp)
    ensures
        0 <= #[trigger] a@ < fp_order(),
        fp_order() > 0x1_0000_0000_0000_0000,
{
    lemma_fp_order();
    lemma_cong_mod(limbs_value(a.limbs@), fp_order());
}

pub broadcast proof fn lemma_fs_range(a: Fs)
    ensures
        0 <= #[trigger] a@ < fs_order(),
        fs_order() > 0x1_0000_0000_0000_0000,
{
    lemma_fs_order();
    lemma_cong_mod(limbs_value(a.limbs@), fs_order());
}

pub broadcast group group_field {
    lemma_fp_range,
    lemma_fs_range,
}

/// Limbs are the digits of their value.
proof fn lemma_limbs_injective(a: Seq<u64>, b: Seq<u64>)
    requires
        limbs_value(a) == limbs_value(b),
    ensures
        a[0] == b[0] && a[1] == b[1] && a[2] == b[2] && a[3] == b[3],
{
    let w: int = 0x1_0000_0000_0000_0000;
    let (a2, b2) = (a[2] + a[3] * w, b[2] + b[3] * w);
    let (a1, b1) = (a[1] + a2 * w, b[1] + b2 * w);
    assert(a[0] + a1 * w == b[0] + b1 * w);
    assert(a[0] == b[0] && a1 == b1);
    assert(a[1] == b[1] && a2 == b2);
}

/// Reading back the `n` low bytes of a value below `256^n` gives the value.
pub proof fn lemma_le_bytes_value(v: int, n: nat)
    requires
        0 <= v,
    ensures
        le_value(le_bytes(v, n)) == v % pow(256, n),
        v < pow(256, n) ==> le_value(le_bytes(v, n)) == v,
    decreases n,
{
    lemma_pow_positive(256, n);
    if n == 0 {
        lemma_pow0(256);
        assert(v % 1 == 0);
    } else {
        let k = (n - 1) as nat;
        let p = pow(256, k);
        lemma_pow_positive(256, k);
        lemma_pow_succ(256, k);
        lemma_le_bytes_value(v, k);
        let f = |i: int| le_bytes(v, n)[i] as int * pow(256, i as nat);
        let g = |i: int| le_bytes(v, k)[i] as int * pow(256, i as nat);
        lemma_sigma_eq(k, f, g);
        // v % (p·256) == v % p + p·((v / p) % 256)
        lemma_breakdown(v, p, 256);
        assert(le_bytes(v, n)[k as int] as int == (v / p) % 256);
        let d = (v / p) % 256;
        assert(d * p == p * d) by (nonlinear_arith);
    }
    if v < pow(256, n) {
        lemma_mod_reduced(v, pow(256, n));
    }
}

/// 32 bytes hold every element of the two fields.
pub proof fn lemma_order_bytes()
    ensures
        fs_order() < fp_order() < pow(256, 32),
{
    lemma_fs_order();
    reveal(fp_order);
    assert(pow(256, 8) == 0x1_0000_0000_0000_0000) by {
        reveal_with_fuel(pow, 9);
    }
    lemma_pow_adds(256, 8, 8);
    let w: int = 0x1_0000_0000_0000_0000;
    assert(pow(256, 16) == w * w);
    lemma_pow_adds(256, 16, 16);
    assert(pow(256, 32) == (w * w) * (w * w));
    assert((w * w) * (w * w)
        == 0x1_0000_0000_0000_0000_0000_0000_0000_0000_0000_0000_0000_0000_0000_0000_0000_0000int);
}

/// The generator of the randomness that secrets, nonces and blinding factors are
/// drawn from.
#[verifier::external_type_specification]
#[verifier::external_body]
pub struct ExStdRng(StdRng);

// ─── F_p ────────────────────────────────────────────────────────────────────

impl Fp {
    #[verifier::type_invariant]
    closed spec fn canonical(self) -> bool {
        limbs_value(self.limbs@) < fp_order()
    }

    /// `ark_ff`: the sum of two field elements.
    #[verifier::external_body]
    fn ark_add(&self, other: &Fp) -> (r: Fp)
        ensures
            r@ == (self@ + other@) % fp_order(),
    {
        let a = ark_bls12_381::Fr::new(ark_ff::BigInt(self.limbs));
        let b = ark_bls12_381::Fr::new(ark_ff::BigInt(other.limbs));
        Fp { limbs: (a + b).into_bigint().0 }
    }

    /// `ark_ff`: the difference of two field elements.
    #[verifier::external_body]
    fn ark_sub(&self, other: &Fp) -> (r: Fp)
        ensures
            r@ == (self@ - other@) % fp_order(),
    {
        let a = ark_bls12_381::Fr::new(ark_ff::BigInt(self.limbs));
        let b = ark_bls12_381::Fr::new(ark_ff::BigInt(other.limbs));
        Fp { limbs: (a - b).into_bigint().0 }
    }

    /// `ark_ff`: the product of two field elements. A field has no zero
    /// divisors, so the product is zero only if a factor is.
    #[verifier::external_body]
    fn ark_mul(&self, other: &Fp) -> (r: Fp)
        ensures
            r@ == (self@ * other@) % fp_order(),
            r@ == 0 ==> self@ == 0 || other@ == 0,
    {
        let a = ark_bls12_381::Fr::new(ark_ff::BigInt(self.limbs));
        let b = ark_bls12_381::Fr::new(ark_ff::BigInt(other.limbs));
        Fp { limbs: (a * b).into_bigint().0 }
    }

    /// `ark_ff::Field::inverse`: the multiplicative inverse, which every
    /// element but zero has.
    #[verifier::external_body]
    fn ark_inverse(&self) -> (r: Option<Fp>)
        ensures
            match r {
                Some(v) => self@ != 0 && (self@ * v@) % fp_order() == 1,
                None => self@ == 0,
            },
    {
        let a = ark_bls12_381::Fr::new(ark_ff::BigInt(self.limbs));
        a.inverse().map(|v| Fp { limbs: v.into_bigint().0 })
    }

    /// `ark_ff::Field::sqrt`: one of the square roots, where there is one.
    /// Which of the two it is depends on the value alone.
    #[verifier::external_body]
    fn ark_sqrt(&self) -> (r: Option<Fp>)
        ensures
            (match r {
                Some(v) => Some(v@),
                None => None,
            }) == fp_sqrt(self@),
            match r {
                Some(v) => (v@ * v@) % fp_order() == self@,
                None => forall|v: int| #[trigger] (v * v) % fp_order() != self@,
            },
    {
        let a = ark_bls12_381::Fr::new(ark_ff::BigInt(self.limbs));
        a.sqrt().map(|v| Fp { limbs: v.into_bigint().0 })
    }

    /// `ark_ff::Field::pow` with a one-limb exponent.
    #[verifier::external_body]
    fn ark_pow(&self, e: u64) -> (r: Fp)
        ensures
            r@ == pow(self@, e as nat) % fp_order(),
    {
        let a = ark_bls12_381::Fr::new(ark_ff::BigInt(self.limbs));
        Fp { limbs: a.pow([e]).into_bigint().0 }
    }

    /// `ark_ff::PrimeField::from_le_bytes_mod_order`: the integer with the given
    /// little-endian bytes, reduced.
    #[verifier::external_body]
    fn ark_from_le_bytes(bytes: &[u8]) -> (r: Fp)
        ensures
            r@ == le_value(bytes@) % fp_order(),
    {
        Fp { limbs: ark_bls12_381::Fr::from_le_bytes_mod_order(bytes).into_bigint().0 }
    }

    /// `ark_serialize`: the compressed form of a field element, its 32
    /// little-endian bytes.
    #[verifier::external_body]
    pub(crate) fn ark_bytes(&self) -> (r: Vec<u8>)
        ensures
            r@ == le_bytes(self@, 32),
    {
        let mut buf = Vec::new();
        let a = ark_bls12_381::Fr::new(ark_ff::BigInt(self.limbs));
        a.serialize_compressed(&mut buf).expect("serialize");
        buf
    }

    /// `ark_ff::UniformRand::rand`: some field element.
    #[verifier::external_body]
    pub(crate) fn rand(rng: &mut StdRng) -> Fp {
        Fp { limbs: ark_bls12_381::Fr::rand(rng).into_bigint().0 }
    }
}

/// Which square root `ark_ff::Field::sqrt` gives for a value of `F_p`.
pub uninterp spec fn fp_sqrt(v: int) -> Option<int>;

impl PartialEq for Fp {
    fn eq(&self, other: &Fp) -> (r: bool) {
        proof {
            use_type_invariant(self);
            use_type_invariant(other);
            lemma_fp_order();
            lemma_mod_reduced(limbs_value(self.limbs@), fp_order());
            lemma_mod_reduced(limbs_value(other.limbs@), fp_order());
            if self@ == other@ {
                lemma_limbs_injective(self.limbs@, other.limbs@);
            }
        }
        self.limbs[0] == other.limbs[0] && self.limbs[1] == other.limbs[1] && self.limbs[2]
            == other.limbs[2] && self.limbs[3] == other.limbs[3]
    }
}

impl PartialEqSpecImpl for Fp {
    open spec fn obeys_eq_spec() -> bool {
        true
    }

    open spec fn eq_spec(&self, other: &Fp) -> bool {
        self@ == other@
    }
}

impl Eq for Fp {

}

impl From<u64> for Fp {
    fn from(v: u64) -> (r: Fp)
        ensures
            r@ == v,
    {
        proof {
            lemma_fp_order();
            lemma_mod_reduced(v as int, fp_order());
        }
        Fp { limbs: [v, 0, 0, 0] }
    }
}

impl FromSpecImpl<u64> for Fp {
    open spec fn obeys_from_spec() -> bool {
        false
    }

    open spec fn from_spec(v: u64) -> Fp {
        arbitrary()
    }
}

impl From<u32> for Fp {
    fn from(v: u32) -> (r: Fp)
        ensures
            r@ == v,
    {
        Fp::from(v as u64)
    }
}

impl FromSpecImpl<u32> for Fp {
    open spec fn obeys_from_spec() -> bool {
        false
    }

    open spec fn from_spec(v: u32) -> Fp {
        arbitrary()
    }
}

impl core::ops::Add for Fp {
    type Output = Fp;

    fn add(self, rhs: Fp) -> (r: Fp)
        ensures
            r@ == (self@ + rhs@) % fp_order(),
    {
        self.ark_add(&rhs)
    }
}

impl AddSpecImpl for Fp {
    open spec fn obeys_add_spec() -> bool {
        false
    }

    open spec fn add_req(self, rhs: Fp) -> bool {
        true
    }

    open spec fn add_spec(self, rhs: Fp) -> Fp {
        arbitrary()
    }
}

impl core::ops::Sub for Fp {
    type Output = Fp;

    fn sub(self, rhs: Fp) -> (r: Fp)
        ensures
            r@ == (self@ - rhs@) % fp_order(),
    {
        self.ark_sub(&rhs)
    }
}

impl SubSpecImpl for Fp {
    open spec fn obeys_sub_spec() -> bool {
        false
    }

    open spec fn sub_req(self, rhs: Fp) -> bool {
        true
    }

    open spec fn sub_spec(self, rhs: Fp) -> Fp {
        arbitrary()
    }
}

impl core::ops::Mul for Fp {
    type Output = Fp;

    fn mul(self, rhs: Fp) -> (r: Fp)
        ensures
            r@ == (self@ * rhs@) % fp_order(),
            r@ == 0 ==> self@ == 0 || rhs@ == 0,
    {
        self.ark_mul(&rhs)
    }
}

impl MulSpecImpl for Fp {
    open spec fn obeys_mul_spec() -> bool {
        false
    }

    open spec fn mul_req(self, rhs: Fp) -> bool {
        true
    }

    open spec fn mul_spec(self, rhs: Fp) -> Fp {
        arbitrary()
    }
}

impl core::ops::Neg for Fp {
    type Output = Fp;

    fn neg(self) -> (r: Fp)
        ensures
            r@ == (-self@) % fp_order(),
    {
        self.negate()
    }
}

impl NegSpecImpl for Fp {
    open spec fn obeys_neg_spec() -> bool {
        false
    }

    open spec fn neg_req(self) -> bool {
        true
    }

    open spec fn neg_spec(self) -> Fp {
        arbitrary()
    }
}

impl Fp {
    /// `-self`.
    pub fn negate(&self) -> (r: Fp)
        ensures
            r@ == (-self@) % fp_order(),
    {
        let zero = Fp::from(0u64);
        zero.ark_sub(self)
    }

    pub fn zero() -> (r: Fp)
        ensures
            r@ == 0,
    {
        Fp::from(0u64)
    }

    pub fn one() -> (r: Fp)
        ensures
            r@ == 1,
    {
        Fp::from(1u64)
    }

    pub fn is_zero(&self) -> (r: bool)
        ensures
            r == (self@ == 0),
    {
        *self == Fp::zero()
    }

    pub fn is_one(&self) -> (r: bool)
        ensures
            r == (self@ == 1),
    {
        *self == Fp::one()
    }

    pub fn square(&self) -> (r: Fp)
        ensures
            r@ == (self@ * self@) % fp_order(),
            r@ == 0 ==> self@ == 0,
    {
        self.ark_mul(self)
    }

    pub fn double(&self) -> (r: Fp)
        ensures
            r@ == (2 * self@) % fp_order(),
    {
        self.ark_add(self)
    }

    /// The multiplicative inverse; `None` for zero.
    pub fn inverse(&self) -> (r: Option<Fp>)
        ensures
            match r {
                Some(v) => self@ != 0 && (self@ * v@) % fp_order() == 1,
                None => self@ == 0,
            },
    {
        self.ark_inverse()
    }

    /// A square root; `None` for a value that is no square.
    pub fn sqrt(&self) -> (r: Option<Fp>)
        ensures
            (match r {
                Some(v) => Some(v@),
                None => None,
            }) == fp_sqrt(self@),
            match r {
                Some(v) => (v@ * v@) % fp_order() == self@,
                None => forall|v: int| #[trigger] (v * v) % fp_order() != self@,
            },
    {
        self.ark_sqrt()
    }

    /// `self^e`.
    pub fn pow(&self, e: u64) -> (r: Fp)
        ensures
            r@ == pow(self@, e as nat) % fp_order(),
    {
        self.ark_pow(e)
    }

    /// The integer with the given little-endian bytes, reduced modulo `p`.
    pub fn from_le_bytes_mod_order(bytes: &[u8]) -> (r: Fp)
        ensures
            r@ == le_value(bytes@) % fp_order(),
    {
        Fp::ark_from_le_bytes(bytes)
    }

    /// The element with the given limbs.
    pub fn from_limbs(limbs: [u64; 4]) -> (r: Fp)
        requires
            limbs_value(limbs@) < fp_order(),
        ensures
            r@ == limbs_value(limbs@),
    {
        proof {
            lemma_mod_reduced(limbs_value(limbs@), fp_order());
        }
        Fp { limbs }
    }

    /// The limbs of the canonical integer.
    pub fn limbs(&self) -> (r: [u64; 4])
        ensures
            limbs_value(r@) == self@,
    {
        proof {
            use_type_invariant(self);
            lemma_mod_reduced(limbs_value(self.limbs@), fp_order());
        }
        self.limbs
    }

    /// Bit `i` of the canonical integer.
    pub fn bit(&self, i: usize) -> (r: bool)
        ensures
            r == bit(self@, i as nat),
    {
        proof {
            use_type_invariant(self);
            lemma_fp_order();
            lemma_mod_reduced(limbs_value(self.limbs@), fp_order());
        }
        limbs_bit(&self.limbs, i)
    }
}

/// The elements of `v` in a vector of their own.
pub fn copy_fps(v: &[Fp]) -> (r: Vec<Fp>)
    ensures
        r@ == v@,
{
    let mut out: Vec<Fp> = Vec::with_capacity(v.len());
    let mut i: usize = 0;
    while i < v.len()
        invariant
            i <= v@.len(),
            out@ == v@.take(i as int),
        decreases v@.len() - i,
    {
        out.push(v[i]);
        proof {
            assert(v@.take(i + 1) =~= v@.take(i as int).push(v@[i as int]));
        }
        i = i + 1;
    }
    assert(v@.take(i as int) =~= v@);
    out
}

/// Appends the elements of `v`.
pub fn extend_fps(dst: &mut Vec<Fp>, v: &[Fp])
    ensures
        final(dst)@ == old(dst)@ + v@,
{
    let ghost d0 = dst@;
    let mut i: usize = 0;
    while i < v.len()
        invariant
            i <= v@.len(),
            dst@ == d0 + v@.take(i as int),
        decreases v@.len() - i,
    {
        dst.push(v[i]);
        proof {
            assert(dst@ =~= d0 + v@.take(i + 1));
        }
        i = i + 1;
    }
    assert(v@.take(i as int) =~= v@);
}

// ─── bits ───────────────────────────────────────────────────────────────────

/// A bit of a number that is cut into a low part, a 64-bit limb and a high part.
proof fn lemma_bit_of_limb(low: int, limb: int, high: int, e: nat, k: nat)
    requires
        0 <= low < pow2(e),
        0 <= high,
        0 <= limb,
        k < 64,
    ensures
        bit(low + limb * pow2(e) + high * pow2(e + 64), e + k) == bit(limb, k),
{
    let v = low + limb * pow2(e) + high * pow2(e + 64);
    let pe = pow2(e) as int;
    let pk = pow2(k) as int;
    lemma_pow2_pos(e);
    lemma_pow2_pos(k);
    lemma_pow2_adds(e, 64);
    lemma_pow2_adds(e, k);
    let top = limb + high * pow2(64);
    assert(v == top * pe + low) by {
        assert(high * (pe * pow2(64)) == (high * pow2(64)) * pe) by (nonlinear_arith);
        assert((limb + high * pow2(64)) * pe == limb * pe + (high * pow2(64)) * pe)
            by (nonlinear_arith);
    }
    lemma_fundamental_div_mod_converse(v, pe, top, low);
    lemma_div_denominator(v, pe, pk);
    // v / 2^(e+k) == top / 2^k
    let half = pow2((63 - k) as nat) as int;
    assert(pow2(64) == 2 * half * pk) by {
        lemma_pow2_adds((64 - k) as nat, k);
        lemma_pow2_unfold((64 - k) as nat);
    }
    let a = limb / pk;
    let b = limb % pk;
    lemma_fundamental_div_mod(limb, pk);
    assert(top == (a + high * (2 * half)) * pk + b) by {
        assert(high * (2 * half * pk) == (high * (2 * half)) * pk) by (nonlinear_arith);
        assert((a + high * (2 * half)) * pk == pk * a + (high * (2 * half)) * pk)
            by (nonlinear_arith);
    }
    lemma_mod_bound(limb, pk);
    lemma_fundamental_div_mod_converse(top, pk, a + high * (2 * half), b);
    assert(high * (2 * half) == 2 * (high * half)) by (nonlinear_arith);
    assert((a + 2 * (high * half)) % 2 == a % 2);
}

/// Bit `i` of the integer with the given limbs.
fn limbs_bit(l: &[u64; 4], i: usize) -> (r: bool)
    ensures
        r == bit(limbs_value(l@), i as nat),
{
    let ghost v = limbs_value(l@);
    proof {
        lemma2_to64();
        lemma2_to64_rest();
        lemma_pow2_adds(64, 64);
        lemma_pow2_adds(128, 64);
        lemma_pow2_adds(192, 64);
    }
    if i >= 256 {
        proof {
            if i > 256 {
                lemma_pow2_strictly_increases(256, i as nat);
            }
            assert(v < pow2(256));
            lemma_basic_div(v, pow2(i as nat) as int);
        }
        return false;
    }
    let q: usize = i / 64;
    let k: u64 = (i % 64) as u64;
    let limb: u64 = l[q];
    proof {
        let (l0, l1, l2, l3) = (l[0] as int, l[1] as int, l[2] as int, l[3] as int);
        let p64 = pow2(64) as int;
        let p128 = pow2(128) as int;
        if q == 0 {
            lemma_pow2(0);
            lemma_bit_of_limb(0, l0, l1 + l2 * p64 + l3 * p128, 0, k as nat);
            assert(v == 0 + l0 * pow2(0) + (l1 + l2 * p64 + l3 * p128) * pow2(64));
        } else if q == 1 {
            lemma_bit_of_limb(l0, l1, l2 + l3 * p64, 64, k as nat);
            assert(v == l0 + l1 * p64 + (l2 + l3 * p64) * p128);
        } else if q == 2 {
            lemma_bit_of_limb(l0 + l1 * p64, l2, l3, 128, k as nat);
        } else {
            assert(q == 3);
            lemma_bit_of_limb(l0 + l1 * p64 + l2 * p128, l3, 0, 192, k as nat);
        }
        assert(bit(v, i as nat) == bit(limb as int, k as nat));
        lemma_u64_shr_is_div(limb, k);
    }
    let shifted: u64 = limb >> k;
    assert(shifted & 1 == shifted % 2) by (bit_vector);
    shifted & 1 == 1
}

// ─── F_s ────────────────────────────────────────────────────────────────────

impl Fs {
    #[verifier::type_invariant]
    closed spec fn canonical(self) -> bool {
        limbs_value(self.limbs@) < fs_order()
    }

    /// `ark_ff`: the sum of two field elements.
    #[verifier::external_body]
    fn ark_add(&self, other: &Fs) -> (r: Fs)
        ensures
            r@ == (self@ + other@) % fs_order(),
    {
        let a = ark_ed_on_bls12_381::Fr::new(ark_ff::BigInt(self.limbs));
        let b = ark_ed_on_bls12_381::Fr::new(ark_ff::BigInt(other.limbs));
        Fs { limbs: (a + b).into_bigint().0 }
    }

    /// `ark_ff`: the difference of two field elements.
    #[verifier::external_body]
    fn ark_sub(&self, other: &Fs) -> (r: Fs)
        ensures
            r@ == (self@ - other@) % fs_order(),
    {
        let a = ark_ed_on_bls12_381::Fr::new(ark_ff::BigInt(self.limbs));
        let b = ark_ed_on_bls12_381::Fr::new(ark_ff::BigInt(other.limbs));
        Fs { limbs: (a - b).into_bigint().0 }
    }

    /// `ark_ff`: the product of two field elements. A field has no zero
    /// divisors, so the product is zero only if a factor is.
    #[verifier::external_body]
    fn ark_mul(&self, other: &Fs) -> (r: Fs)
        ensures
            r@ == (self@ * other@) % fs_order(),
            r@ == 0 ==> self@ == 0 || other@ == 0,
    {
        let a = ark_ed_on_bls12_381::Fr::new(ark_ff::BigInt(self.limbs));
        let b = ark_ed_on_bls12_381::Fr::new(ark_ff::BigInt(other.limbs));
        Fs { limbs: (a * b).into_bigint().0 }
    }

    /// `ark_ff::PrimeField::from_le_bytes_mod_order`: the integer with the given
    /// little-endian bytes, reduced.
    #[verifier::external_body]
    fn ark_from_le_bytes(bytes: &[u8]) -> (r: Fs)
        ensures
            r@ == le_value(bytes@) % fs_order(),
    {
        Fs { limbs: ark_ed_on_bls12_381::Fr::from_le_bytes_mod_order(bytes).into_bigint().0 }
    }

    /// `ark_serialize`: the compressed form of a field element, its 32
    /// little-endian bytes.
    #[verifier::external_body]
    pub(crate) fn ark_bytes(&self) -> (r: Vec<u8>)
        ensures
            r@ == le_bytes(self@, 32),
    {
        let mut buf = Vec::new();
        let a = ark_ed_on_bls12_381::Fr::new(ark_ff::BigInt(self.limbs));
        a.serialize_compressed(&mut buf).expect("serialize");
        buf
    }

    /// `ark_ff::UniformRand::rand`: some field element.
    #[verifier::external_body]
    pub(crate) fn rand(rng: &mut StdRng) -> Fs {
        Fs { limbs: ark_ed_on_bls12_381::Fr::rand(rng).into_bigint().0 }
    }
}

impl PartialEq for Fs {
    fn eq(&self, other: &Fs) -> (r: bool) {
        proof {
            use_type_invariant(self);
            use_type_invariant(other);
            lemma_fs_order();
            lemma_mod_reduced(limbs_value(self.limbs@), fs_order());
            lemma_mod_reduced(limbs_value(other.limbs@), fs_order());
            if self@ == other@ {
                lemma_limbs_injective(self.limbs@, other.limbs@);
            }
        }
        self.limbs[0] == other.limbs[0] && self.limbs[1] == other.limbs[1] && self.limbs[2]
            == other.limbs[2] && self.limbs[3] == other.limbs[3]
    }
}

impl PartialEqSpecImpl for Fs {
    open spec fn obeys_eq_spec() -> bool {
        true
    }

    open spec fn eq_spec(&self, other: &Fs) -> bool {
        self@ == other@
    }
}

impl Eq for Fs {

}

impl From<u64> for Fs {
    fn from(v: u64) -> (r: Fs)
        ensures
            r@ == v,
    {
        proof {
            lemma_fs_order();
            lemma_mod_reduced(v as int, fs_order());
        }
        Fs { limbs: [v, 0, 0, 0] }
    }
}

impl FromSpecImpl<u64> for Fs {
    open spec fn obeys_from_spec() -> bool {
        false
    }

    open spec fn from_spec(v: u64) -> Fs {
        arbitrary()
    }
}

impl core::ops::Add for Fs {
    type Output = Fs;

    fn add(self, rhs: Fs) -> (r: Fs)
        ensures
            r@ == (self@ + rhs@) % fs_order(),
    {
        self.ark_add(&rhs)
    }
}

impl AddSpecImpl for Fs {
    open spec fn obeys_add_spec() -> bool {
        false
    }

    open spec fn add_req(self, rhs: Fs) -> bool {
        true
    }

    open spec fn add_spec(self, rhs: Fs) -> Fs {
        arbitrary()
    }
}

impl core::ops::Sub for Fs {
    type Output = Fs;

    fn sub(self, rhs: Fs) -> (r: Fs)
        ensures
            r@ == (self@ - rhs@) % fs_order(),
    {
        self.ark_sub(&rhs)
    }
}

impl SubSpecImpl for Fs {
    open spec fn obeys_sub_spec() -> bool {
        false
    }

    open spec fn sub_req(self, rhs: Fs) -> bool {
        true
    }

    open spec fn sub_spec(self, rhs: Fs) -> Fs {
        arbitrary()
    }
}

impl core::ops::Mul for Fs {
    type Output = Fs;

    fn mul(self, rhs: Fs) -> (r: Fs)
        ensures
            r@ == (self@ * rhs@) % fs_order(),
            r@ == 0 ==> self@ == 0 || rhs@ == 0,
    {
        self.ark_mul(&rhs)
    }
}

impl MulSpecImpl for Fs {
    open spec fn obeys_mul_spec() -> bool {
        false
    }

    open spec fn mul_req(self, rhs: Fs) -> bool {
        true
    }

    open spec fn mul_spec(self, rhs: Fs) -> Fs {
        arbitrary()
    }
}

impl core::ops::Neg for Fs {
    type Output = Fs;

    fn neg(self) -> (r: Fs)
        ensures
            r@ == (-self@) % fs_order(),
    {
        self.negate()
    }
}

impl NegSpecImpl for Fs {
    open spec fn obeys_neg_spec() -> bool {
        false
    }

    open spec fn neg_req(self) -> bool {
        true
    }

    open spec fn neg_spec(self) -> Fs {
        arbitrary()
    }
}

impl Fs {
    /// `-self`.
    pub fn negate(&self) -> (r: Fs)
        ensures
            r@ == (-self@) % fs_order(),
    {
        let zero = Fs::from(0u64);
        zero.ark_sub(self)
    }

    /// The limbs of the canonical integer.
    pub fn limbs(&self) -> (r: [u64; 4])
        ensures
            limbs_value(r@) == self@,
    {
        proof {
            use_type_invariant(self);
            lemma_mod_reduced(limbs_value(self.limbs@), fs_order());
        }
        self.limbs
    }

    pub fn is_zero(&self) -> (r: bool)
        ensures
            r == (self@ == 0),
    {
        *self == Fs::from(0u64)
    }

    /// The integer with the given little-endian bytes, reduced modulo `s`.
    pub fn from_le_bytes_mod_order(bytes: &[u8]) -> (r: Fs)
        ensures
            r@ == le_value(bytes@) % fs_order(),
    {
        Fs::ark_from_le_bytes(bytes)
    }

    /// Bit `i` of the canonical integer.
    pub fn bit(&self, i: usize) -> (r: bool)
        ensures
            r == bit(self@, i as nat),
    {
        proof {
            use_type_invariant(self);
            lemma_fs_order();
            lemma_mod_reduced(limbs_value(self.limbs@), fs_order());
        }
        limbs_bit(&self.limbs, i)
    }
}

} // verus!
