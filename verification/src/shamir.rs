//! Shamir secret sharing over `F_p`.
//!
//! `Share(x, n, t)` takes a random polynomial of degree `t - 1`,
//! `f(Z) = x + a_1·Z + … + a_{t-1}·Z^{t-1}`, and gives out `f(1), …, f(n)`.
//!
//! `Recover(t, {(i, x_i)})` interpolates `f(0) = x` from any `t` or more shares.
use crate::algebra::{
    cong, lemma_cong_add, lemma_cong_mod, lemma_cong_mul, lemma_mod_reduced, lemma_poly_eval_cons,
    lemma_sigma_cong, lemma_sigma_eq, poly_eval, sigma,
};
use crate::curves::Fp;
use crate::errors::{GoldenError, GoldenResult};
use crate::field::{copy_fps, fp_order, fps, lemma_fp_order};
use crate::lagrange::{
    good_nodes, interpolation, inv, invertible, lagrange, lagrange_num, lemma_good_nodes,
    lemma_interpolation, lemma_inv_unique,
};
use rand::rngs::StdRng;
use vstd::prelude::*;

verus! {

/// A polynomial `f(Z) = a_0 + a_1·Z + … + a_deg·Z^deg` over `F_p`; `f(0)` is the
/// secret.
pub struct Polynomial {
    coeffs: Vec<Fp>,
}

impl Clone for Polynomial {
    fn clone(&self) -> (r: Self)
        ensures
            r@ == self@,
    {
        proof {
            use_type_invariant(self);
        }
        Polynomial { coeffs: copy_fps(&self.coeffs) }
    }
}

impl View for Polynomial {
    type V = Seq<int>;

    /// The coefficients, constant term first.
    closed spec fn view(&self) -> Seq<int> {
        fps(self.coeffs@)
    }
}

/// The indices of a list of shares.
pub open spec fn share_indices(shares: Seq<(u32, Fp)>) -> Seq<int> {
    Seq::new(shares.len(), |i: int| shares[i].0 as int)
}

/// The values of a list of shares.
pub open spec fn share_values(shares: Seq<(u32, Fp)>) -> Seq<int> {
    Seq::new(shares.len(), |i: int| shares[i].1@)
}

/// Some index occurs twice.
pub open spec fn has_duplicate(shares: Seq<(u32, Fp)>) -> bool {
    exists|i: int, j: int|
        0 <= i < j < shares.len() && (#[trigger] shares[i]).0 == (#[trigger] shares[j]).0
}

/// Some share has the index of the secret.
pub open spec fn has_zero_index(shares: Seq<(u32, Fp)>) -> bool {
    exists|i: int| 0 <= i < shares.len() && (#[trigger] shares[i]).0 == 0
}

/// Every share is the value of the polynomial `f` at its index.
pub open spec fn shares_of(shares: Seq<(u32, Fp)>, f: Seq<int>) -> bool {
    forall|i: int|
        0 <= i < shares.len() ==> (#[trigger] shares[i]).1@ == poly_eval(f, shares[i].0 as int)
            % fp_order()
}

impl Polynomial {
    #[verifier::type_invariant]
    closed spec fn nonempty(self) -> bool {
        self.coeffs@.len() > 0
    }

    /// A random polynomial of degree `t - 1` with `f(0) = secret`.
    pub fn random_with_secret(secret: Fp, t: u32, rng: &mut StdRng) -> (r: Self)
        requires
            t >= 1,
        ensures
            r@.len() == t,
            r@[0] == secret@,
    {
        let mut coeffs: Vec<Fp> = Vec::with_capacity(t as usize);
        coeffs.push(secret);
        let mut i: u32 = 1;
        while i < t
            invariant
                1 <= i <= t,
                coeffs@.len() == i,
                coeffs@[0] == secret,
            decreases t - i,
        {
            coeffs.push(Fp::rand(rng));
            i = i + 1;
        }
        Polynomial::from_coeffs(coeffs)
    }

    /// The polynomial with coefficients `[a_0, a_1, …]`.
    pub fn from_coeffs(coeffs: Vec<Fp>) -> (r: Self)
        requires
            coeffs@.len() > 0,
        ensures
            r@ == fps(coeffs@),
    {
        Polynomial { coeffs }
    }

    /// `f(z)`, by Horner's rule.
    pub fn evaluate(&self, z: Fp) -> (r: Fp)
        ensures
            r@ == poly_eval(self@, z@) % fp_order(),
    {
        let mut acc = Fp::zero();
        let mut i: usize = self.coeffs.len();
        let ghost m = fp_order();
        let ghost c = self@;
        proof {
            lemma_fp_order();
            assert(c.skip(i as int) =~= Seq::<int>::empty());
            lemma_mod_reduced(0, m);
        }
        while i > 0
            invariant
                i <= self.coeffs@.len(),
                c == fps(self.coeffs@),
                m == fp_order(),
                m > 1,
                acc@ == poly_eval(c.skip(i as int), z@) % m,
            decreases i,
        {
            let ghost acc0 = acc@;
            i = i - 1;
            let az = acc * z;
            acc = az + self.coeffs[i];
            proof {
                let rest = c.skip(i + 1);
                let e = poly_eval(rest, z@);
                assert(c.skip(i as int) =~= seq![c[i as int]] + rest);
                lemma_poly_eval_cons(c[i as int], rest, z@);
                lemma_cong_mod(e, m);
                lemma_cong_mul(acc0, e, z@, z@, m);
                lemma_cong_mod(acc0 * z@, m);
                lemma_cong_add(az@, e * z@, c[i as int], c[i as int], m);
            }
        }
        proof {
            assert(c.skip(0) =~= c);
        }
        acc
    }

    /// Threshold `t` (number of coefficients = degree + 1).
    pub fn t(&self) -> (r: u32)
        ensures
            r == self@.len() as u32,
    {
        self.coeffs.len() as u32
    }

    /// Coefficients.
    pub fn coeffs(&self) -> (r: &[Fp])
        ensures
            fps(r@) == self@,
            r@.len() > 0,
    {
        proof {
            use_type_invariant(self);
        }
        &self.coeffs
    }

    /// `f(0)`, the secret.
    pub fn secret(&self) -> (r: Fp)
        ensures
            self@.len() > 0,
            r@ == self@[0],
    {
        proof {
            use_type_invariant(self);
        }
        self.coeffs[0]
    }
}

/// The shares `(1, f(1)), …, (n, f(n))`.
pub fn evaluate_shares(poly: &Polynomial, n: u32) -> (r: Vec<(u32, Fp)>)
    ensures
        r@.len() == n,
        forall|k: int| 0 <= k < n ==> (#[trigger] r@[k]).0 == k + 1,
        shares_of(r@, poly@),
{
    let mut shares: Vec<(u32, Fp)> = Vec::new();
    let mut i: u32 = 0;
    while i < n
        invariant
            i <= n,
            shares@.len() == i,
            forall|k: int| 0 <= k < i ==> (#[trigger] shares@[k]).0 == k + 1,
            shares_of(shares@, poly@),
        decreases n - i,
    {
        i = i + 1;
        shares.push((i, poly.evaluate(Fp::from(i))));
    }
    shares
}

/// `Share(x, n, t)`: a polynomial `f` with `f(0) = secret`, and its values
/// `[(1, f(1)), …, (n, f(n))]`.
///
/// Indices start at 1: `f(0)` is the secret.
pub fn share(secret: Fp, n: u32, t: u32, rng: &mut StdRng) -> (r: (Polynomial, Vec<(u32, Fp)>))
    requires
        1 <= t <= n,
    ensures
        r.0@.len() == t,
        r.0@[0] == secret@,
        r.1@.len() == n,
        forall|k: int| 0 <= k < n ==> (#[trigger] r.1@[k]).0 == k + 1,
        shares_of(r.1@, r.0@),
{
    let poly = Polynomial::random_with_secret(secret, t, rng);
    let shares = evaluate_shares(&poly, n);
    (poly, shares)
}

/// The indices of `idx` as integers.
pub open spec fn index_ints(idx: Seq<u32>) -> Seq<int> {
    Seq::new(idx.len(), |k: int| idx[k] as int)
}

/// Lagrange coefficient `L_i(z)` for the index set `idx`:
/// `L_i(z) = ∏_{j ∈ idx, j ≠ i} (z - j) / (i - j)`.
pub fn lagrange_coeff(idx: &[u32], i: u32, z: Fp) -> (r: Fp)
    ensures
        r@ == lagrange(index_ints(idx@), i as int, z@) % fp_order(),
        invertible(lagrange_num(index_ints(idx@), i as int, i as int)),
{
    let xi = Fp::from(i);
    let mut num = Fp::from(1u64);
    let mut den = Fp::from(1u64);
    let mut k: usize = 0;
    let ghost xs = index_ints(idx@);
    let ghost m = fp_order();
    proof {
        lemma_fp_order();
        lemma_mod_reduced(1, m);
    }
    while k < idx.len()
        invariant
            k <= idx@.len(),
            xs == index_ints(idx@),
            m == fp_order(),
            m > 0x1_0000_0000_0000_0000,
            xi@ == i,
            num@ == lagrange_num(xs.take(k as int), i as int, z@) % m,
            den@ == lagrange_num(xs.take(k as int), i as int, i as int) % m,
            den@ != 0,
        decreases idx@.len() - k,
    {
        let j: u32 = idx[k];
        let ghost (num0, den0) = (num@, den@);
        let ghost pre = xs.take(k as int);
        let ghost nxt = xs.take(k + 1);
        proof {
            assert(nxt.drop_last() =~= pre);
            assert(nxt.last() == j);
        }
        if j != i {
            let xj = Fp::from(j);
            let dn = z - xj;
            let dd = xi - xj;
            num = num * dn;
            den = den * dd;
            proof {
                let pn = lagrange_num(pre, i as int, z@);
                let pd = lagrange_num(pre, i as int, i as int);
                lemma_cong_mod(pn, m);
                lemma_cong_mod(pd, m);
                lemma_cong_mod(z@ - j, m);
                lemma_cong_mod(i - j, m);
                lemma_cong_mul(num0, pn, dn@, z@ - j, m);
                lemma_cong_mul(den0, pd, dd@, i - j, m);
                if dd@ == 0 {
                    lemma_nonzero_difference(i, j);
                }
            }
        } else {
            proof {
                let pn = lagrange_num(pre, i as int, z@);
                let pd = lagrange_num(pre, i as int, i as int);
                assert(pn * 1 == pn && pd * 1 == pd);
            }
        }
        k = k + 1;
    }
    let den_inv = den.inverse().unwrap();
    let r = num * den_inv;
    proof {
        assert(xs.take(k as int) =~= xs);
        let pn = lagrange_num(xs, i as int, z@);
        let pd = lagrange_num(xs, i as int, i as int);
        lemma_cong_mod(pn, m);
        lemma_cong_mod(pd, m);
        lemma_mod_reduced(1, m);
        lemma_cong_mul(den@, pd, den_inv@, den_inv@, m);
        lemma_inv_unique(pd, den_inv@);
        lemma_cong_mul(num@, pn, den_inv@, inv(pd), m);
    }
    r
}

/// Different 32-bit indices differ modulo `p`.
proof fn lemma_nonzero_difference(i: u32, j: u32)
    requires
        i != j,
    ensures
        (i - j) % fp_order() != 0,
{
    let m = fp_order();
    lemma_fp_order();
    if i > j {
        lemma_mod_reduced(i - j, m);
    } else {
        lemma_mod_reduced(m + i - j, m);
        vstd::arithmetic::div_mod::lemma_mod_add_multiples_vanish(i - j, m);
    }
}

/// `∑ x_i · L_i(z)` over the shares.
fn interpolate(shares: &[(u32, Fp)], z: Fp) -> (r: Fp)
    ensures
        r@ == interpolation(share_indices(shares@), share_values(shares@), z@) % fp_order(),
        !has_duplicate(shares@) ==> good_nodes(share_indices(shares@)),
{
    let mut idx: Vec<u32> = Vec::new();
    let mut k: usize = 0;
    while k < shares.len()
        invariant
            k <= shares@.len(),
            idx@.len() == k,
            forall|j: int| 0 <= j < k ==> #[trigger] idx@[j] == shares@[j].0,
        decreases shares@.len() - k,
    {
        idx.push(shares[k].0);
        k = k + 1;
    }
    let ghost xs = share_indices(shares@);
    let ghost ys = share_values(shares@);
    let ghost m = fp_order();
    let ghost f = |i: int| ys[i] * lagrange(xs, xs[i], z@);
    proof {
        lemma_fp_order();
        assert(index_ints(idx@) =~= xs);
        lemma_mod_reduced(0, m);
    }
    let mut acc = Fp::zero();
    let mut i: usize = 0;
    while i < shares.len()
        invariant
            i <= shares@.len(),
            idx@.len() == shares@.len(),
            xs == share_indices(shares@),
            ys == share_values(shares@),
            xs == index_ints(idx@),
            m == fp_order(),
            m > 0,
            f == (|i: int| ys[i] * lagrange(xs, xs[i], z@)),
            acc@ == sigma(i as nat, f) % m,
            forall|j: int|
                0 <= j < i ==> invertible(lagrange_num(xs, #[trigger] xs[j], xs[j])),
        decreases shares@.len() - i,
    {
        let (j, y) = shares[i];
        let ghost acc0 = acc@;
        let l = lagrange_coeff(&idx, j, z);
        let yl = y * l;
        acc = acc + yl;
        proof {
            let ll = lagrange(xs, xs[i as int], z@);
            lemma_cong_mod(ll, m);
            lemma_cong_mul(y@, ys[i as int], l@, ll, m);
            lemma_cong_mod(y@ * l@, m);
            lemma_cong_mod(sigma(i as nat, f), m);
            lemma_cong_add(acc0, sigma(i as nat, f), yl@, f(i as int), m);
        }
        i = i + 1;
    }
    proof {
        lemma_sigma_eq(xs.len(), f, |i: int| ys[i] * lagrange(xs, xs[i], z@));
        if !has_duplicate(shares@) {
            assert forall|i: int, j: int| 0 <= i < j < xs.len() implies xs[i] != xs[j] by {
                assert(shares@[i].0 != shares@[j].0);
            }
            lemma_good_nodes(xs);
        }
    }
    acc
}

/// Shares of a polynomial with at most as many coefficients as there are shares
/// interpolate to its value.
pub proof fn lemma_shares_interpolate(shares: Seq<(u32, Fp)>, f: Seq<int>, z: int)
    requires
        good_nodes(share_indices(shares)),
        shares_of(shares, f),
        f.len() <= shares.len(),
    ensures
        cong(
            interpolation(share_indices(shares), share_values(shares), z),
            poly_eval(f, z),
            fp_order(),
        ),
{
    let m = fp_order();
    lemma_fp_order();
    let xs = share_indices(shares);
    let ys = share_values(shares);
    let a = |i: int| ys[i] * lagrange(xs, xs[i], z);
    let b = |i: int| poly_eval(f, xs[i]) * lagrange(xs, xs[i], z);
    assert forall|i: int| 0 <= i < xs.len() implies cong(#[trigger] a(i), b(i), m) by {
        assert(shares[i].1@ == poly_eval(f, shares[i].0 as int) % m);
        lemma_cong_mod(poly_eval(f, xs[i]), m);
        lemma_cong_mul(
            ys[i],
            poly_eval(f, xs[i]),
            lagrange(xs, xs[i], z),
            lagrange(xs, xs[i], z),
            m,
        );
    }
    lemma_sigma_cong(xs.len(), a, b, m);
    lemma_interpolation(xs, f, z);
    lemma_sigma_eq(xs.len(), b, |i: int| poly_eval(f, xs[i]) * lagrange(xs, xs[i], z));
    lemma_sigma_eq(xs.len(), a, |i: int| ys[i] * lagrange(xs, xs[i], z));
}

/// `Recover(t, shares)`: interpolates `f(0)` from `t` or more shares with distinct
/// indices. Fails for fewer than `t` shares, for an index that occurs twice, and
/// for the index 0, in this order.
///
/// Any set of shares of one polynomial that is at least as large as the number of
/// its coefficients gives back the secret `f(0)`.
pub fn recover(t: u32, shares: &[(u32, Fp)]) -> (r: GoldenResult<Fp>)
    ensures
        match r {
            Ok(v) => {
                &&& shares@.len() as u32 >= t
                &&& !has_duplicate(shares@)
                &&& !has_zero_index(shares@)
                &&& v@ == interpolation(share_indices(shares@), share_values(shares@), 0)
                    % fp_order()
                &&& forall|f: Seq<int>|
                    f.len() <= shares@.len() && #[trigger] shares_of(shares@, f) ==> v@
                        == poly_eval(f, 0) % fp_order()
            },
            Err(GoldenError::NotEnoughShares { have, need }) => {
                &&& (shares@.len() as u32) < t
                &&& have == shares@.len() as u32
                &&& need == t
            },
            Err(GoldenError::DuplicateShareIndex) => {
                &&& shares@.len() as u32 >= t
                &&& has_duplicate(shares@)
            },
            Err(GoldenError::InvalidShareIndex) => {
                &&& shares@.len() as u32 >= t
                &&& !has_duplicate(shares@)
                &&& has_zero_index(shares@)
            },
            Err(_) => false,
        },
{
    let have: u32 = shares.len() as u32;
    if have < t {
        return Err(GoldenError::NotEnoughShares { have, need: t });
    }
    let mut i: usize = 0;
    while i < shares.len()
        invariant
            i <= shares@.len(),
            have == shares@.len() as u32,
            have >= t,
            forall|a: int, b: int|
                0 <= a < i && a < b < shares@.len() ==> (#[trigger] shares@[a]).0 != (
                #[trigger] shares@[b]).0,
        decreases shares@.len() - i,
    {
        let mut j: usize = i + 1;
        while j < shares.len()
            invariant
                i < j <= shares@.len(),
                i < shares@.len(),
                have == shares@.len() as u32,
                have >= t,
                forall|b: int| i < b < j ==> shares@[i as int].0 != (#[trigger] shares@[b]).0,
            decreases shares@.len() - j,
        {
            if shares[i].0 == shares[j].0 {
                assert(shares@[i as int].0 == shares@[j as int].0);
                return Err(GoldenError::DuplicateShareIndex);
            }
            j = j + 1;
        }
        i = i + 1;
    }
    assert(!has_duplicate(shares@));
    let mut k: usize = 0;
    while k < shares.len()
        invariant
            k <= shares@.len(),
            have == shares@.len() as u32,
            have >= t,
            !has_duplicate(shares@),
            forall|a: int| 0 <= a < k ==> (#[trigger] shares@[a]).0 != 0,
        decreases shares@.len() - k,
    {
        if shares[k].0 == 0 {
            assert(shares@[k as int].0 == 0);
            return Err(GoldenError::InvalidShareIndex);
        }
        k = k + 1;
    }
    let v = interpolate(shares, Fp::zero());
    proof {
        assert forall|f: Seq<int>|
            f.len() <= shares@.len() && #[trigger] shares_of(shares@, f) implies v@ == poly_eval(
            f,
            0,
        ) % fp_order() by {
            lemma_shares_interpolate(shares@, f, 0);
        }
    }
    Ok(v)
}

/// Interpolates `f(z)` from shares with distinct indices; of a polynomial with at
/// most as many coefficients as there are shares this is its value at `z`.
pub fn interpolate_at(shares: &[(u32, Fp)], z: Fp) -> (r: Fp)
    ensures
        r@ == interpolation(share_indices(shares@), share_values(shares@), z@) % fp_order(),
        forall|f: Seq<int>|
            !has_duplicate(shares@) && f.len() <= shares@.len() && #[trigger] shares_of(shares@, f)
                ==> r@ == poly_eval(f, z@) % fp_order(),
{
    let r = interpolate(shares, z);
    proof {
        assert forall|f: Seq<int>|
            !has_duplicate(shares@) && f.len() <= shares@.len() && #[trigger] shares_of(
                shares@,
                f,
            ) implies r@ == poly_eval(f, z@) % fp_order() by {
            lemma_shares_interpolate(shares@, f, z@);
        }
    }
    r
}

} // verus!
