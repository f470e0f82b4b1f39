//! Nothing-up-my-sleeve Pedersen generators for Bulletproofs.
//!
//! `B` is `g_out`, so that committing to the pad value `r` with zero blinding gives
//! exactly `R = g_out^r`. The blinding base and the vectors `G[]`, `H[]` are hashes
//! to the curve. Anyone can recompute all of them.
use crate::algebra::{
    cong, lemma_cong_add, lemma_cong_mod, lemma_cong_mul, lemma_cong_small, lemma_mod_reduced,
};
use crate::curves::{
    gout_gen, gout_hash, gout_in_group, gout_is_pow, gout_log, gout_mul, gout_pow, gout_scale,
    gout_sum, gout_sum_is, gouts, gouts_in_group, is_in_prime_subgroup, lemma_gout_eq,
    lemma_gout_log, par_points, Fp, GoutAffine, GoutPoint,
};
use crate::field::{fp_order, le_value, lemma_fp_order, lemma_fp_range};
use crate::hash_to_curve::{append_slice, sha512, sha512_digest};
use crate::zk::ipa::is_two_power;
use vstd::bytes::{spec_u64_to_le_bytes, u64_to_le_bytes};
use vstd::prelude::*;
use vstd::slice::slice_subrange;
use vstd::string::StringSliceAdditionalSpecFns;

verus! {

/// Bulletproofs generators. `gens_capacity` is the largest number of multiplication
/// gates that a proof can cover.
#[derive(Clone, Debug)]
pub struct BpGens {
    pub gens_capacity: usize,
    /// Pedersen base for committed values, `g_out`.
    pub b: GoutAffine,
    /// Pedersen blinding base.
    pub b_blinding: GoutAffine,
    /// Bases `G[0..n]` for `a_L`.
    pub g_vec: Vec<GoutAffine>,
    /// Bases `H[0..n]` for `a_R`.
    pub h_vec: Vec<GoutAffine>,
}

/// The generator with a label and an index.
pub open spec fn labelled_point(label: Seq<u8>, i: u64) -> GoutPoint {
    gout_hash("golden-nidkg/bp-gens/v1".spec_bytes(), label + spec_u64_to_le_bytes(i))
}

/// Hash to `G1` of a label and an index, so that no discrete logarithm of the
/// result is known.
fn hash_to_gout_h2c(label: &[u8], i: u64) -> (r: GoutAffine)
    ensures
        r@ == labelled_point(label@, i),
{
    let mut msg: Vec<u8> = Vec::with_capacity(label.len());
    append_slice(&mut msg, label);
    assert(msg@ =~= label@);
    let mut index = u64_to_le_bytes(i);
    msg.append(&mut index);
    GoutAffine::ark_hash("golden-nidkg/bp-gens/v1".as_bytes(), &msg)
}

/// The generators of one vector.
fn hashed_vec(label: &[u8], n: usize) -> (r: Vec<GoutAffine>)
    ensures
        r@.len() == n,
        forall|i: int| 0 <= i < n ==> (#[trigger] r@[i])@ == labelled_point(label@, i as u64),
{
    let hash = |i: usize| -> (p: GoutAffine)
        ensures
            p@ == labelled_point(label@, i as u64),
        { hash_to_gout_h2c(label, i as u64) };
    let out = par_points(n, hash);
    proof {
        assert forall|k: int| 0 <= k < n implies (#[trigger] out@[k])@ == labelled_point(
            label@,
            k as u64,
        ) by {
            let i = k as usize;
            assert(call_ensures(hash, (i,), out@[i as int]));
        }
    }
    out
}

/// Whether every point is in the prime-order group.
fn all_in_group(v: &[GoutAffine]) -> (r: bool)
    ensures
        r == gouts_in_group(gouts(v@)),
{
    let mut i: usize = 0;
    while i < v.len()
        invariant
            i <= v@.len(),
            forall|k: int| 0 <= k < i ==> gout_in_group(#[trigger] gouts(v@)[k]),
        decreases v@.len() - i,
    {
        assert(gouts(v@)[i as int] == v@[i as int]@);
        if !is_in_prime_subgroup(&v[i]) {
            return false;
        }
        i = i + 1;
    }
    true
}

/// The generators that a proof of `n` gates uses are in the prime-order group.
pub open spec fn labels_in_group(n: nat) -> bool {
    &&& gout_in_group(labelled_point("B_blinding".spec_bytes(), 0))
    &&& forall|i: int|
        0 <= i < n ==> gout_in_group(#[trigger] labelled_point("G".spec_bytes(), i as u64))
    &&& forall|i: int|
        0 <= i < n ==> gout_in_group(#[trigger] labelled_point("H".spec_bytes(), i as u64))
}

impl BpGens {
    /// The vectors are as long as the capacity says.
    pub open spec fn well_formed(&self) -> bool {
        &&& self.g_vec@.len() == self.gens_capacity
        &&& self.h_vec@.len() == self.gens_capacity
    }

    /// Every generator is in the prime-order group.
    pub open spec fn in_group(&self) -> bool {
        &&& gout_in_group(self.b@)
        &&& gout_in_group(self.b_blinding@)
        &&& gouts_in_group(gouts(self.g_vec@))
        &&& gouts_in_group(gouts(self.h_vec@))
    }

    /// The hashed generators are those of their labels and indices, and `B` is `g_out`.
    pub open spec fn labelled(&self) -> bool {
        &&& gout_is_pow(self.b@, 1)
        &&& self.b_blinding@ == labelled_point("B_blinding".spec_bytes(), 0)
        &&& self.well_formed()
        &&& forall|i: int|
            0 <= i < self.gens_capacity ==> (#[trigger] self.g_vec@[i])@ == labelled_point(
                "G".spec_bytes(),
                i as u64,
            )
        &&& forall|i: int|
            0 <= i < self.gens_capacity ==> (#[trigger] self.h_vec@[i])@ == labelled_point(
                "H".spec_bytes(),
                i as u64,
            )
    }

    /// Generators for up to `gens_capacity` multiplication gates, which must be a
    /// power of two. They are in the prime-order group wherever the hash gives points
    /// of it; [`BpGens::check`] tests that.
    pub fn new(gens_capacity: usize) -> (r: Self)
        requires
            is_two_power(gens_capacity as nat),
        ensures
            r.gens_capacity == gens_capacity,
            r.labelled(),
            r.in_group() <==> labels_in_group(gens_capacity as nat),
    {
        let b = gout_gen();
        proof {
            lemma_gout_log(b@, 1);
        }
        let b_blinding = hash_to_gout_h2c("B_blinding".as_bytes(), 0);
        let g_vec = hashed_vec("G".as_bytes(), gens_capacity);
        let h_vec = hashed_vec("H".as_bytes(), gens_capacity);
        let r = BpGens { gens_capacity, b, b_blinding, g_vec, h_vec };
        proof {
            lemma_labelled_in_group(r);
        }
        r
    }

    /// [`BpGens::new`], with `None` where a generator is not in the prime-order group.
    pub fn try_new(gens_capacity: usize) -> (r: Option<Self>)
        requires
            is_two_power(gens_capacity as nat),
        ensures
            r is Some <==> labels_in_group(gens_capacity as nat),
            r matches Some(g) ==> g.gens_capacity == gens_capacity && g.labelled() && g.in_group(),
    {
        let gens = BpGens::new(gens_capacity);
        if gens.check() {
            Some(gens)
        } else {
            None
        }
    }

    /// Whether every generator is in the prime-order group.
    pub fn check(&self) -> (r: bool)
        ensures
            r == self.in_group(),
    {
        is_in_prime_subgroup(&self.b) && is_in_prime_subgroup(&self.b_blinding) && all_in_group(
            self.g_vec.as_slice(),
        ) && all_in_group(self.h_vec.as_slice())
    }

    /// The first `n` generators of both vectors.
    pub fn share(&self, n: usize) -> (r: (&[GoutAffine], &[GoutAffine]))
        requires
            n <= self.gens_capacity,
            self.well_formed(),
        ensures
            r.0@ == self.g_vec@.take(n as int),
            r.1@ == self.h_vec@.take(n as int),
    {
        let g = slice_subrange(self.g_vec.as_slice(), 0, n);
        let h = slice_subrange(self.h_vec.as_slice(), 0, n);
        proof {
            assert(g@ =~= self.g_vec@.take(n as int));
            assert(h@ =~= self.h_vec@.take(n as int));
        }
        (g, h)
    }
}

/// Generators that are those of their labels are in the group exactly where the labels
/// hash into it.
proof fn lemma_labelled_in_group(g: BpGens)
    requires
        g.labelled(),
    ensures
        g.in_group() <==> labels_in_group(g.gens_capacity as nat),
{
    let n = g.gens_capacity as int;
    let (gs, hs) = (gouts(g.g_vec@), gouts(g.h_vec@));
    assert(gout_in_group(g.b@));
    assert forall|i: int| 0 <= i < n implies gs[i] == #[trigger] labelled_point(
        "G".spec_bytes(),
        i as u64,
    ) && hs[i] == labelled_point("H".spec_bytes(), i as u64) by {
        assert(gs[i] == g.g_vec@[i]@ && hs[i] == g.h_vec@[i]@);
    }
    if g.in_group() {
        assert forall|i: int| 0 <= i < n implies gout_in_group(
            #[trigger] labelled_point("G".spec_bytes(), i as u64),
        ) by {
            assert(gout_in_group(gs[i]));
        }
        assert forall|i: int| 0 <= i < n implies gout_in_group(
            #[trigger] labelled_point("H".spec_bytes(), i as u64),
        ) by {
            assert(gout_in_group(hs[i]));
        }
    }
    if labels_in_group(n as nat) {
        assert forall|i: int| 0 <= i < gs.len() implies #[trigger] gout_in_group(gs[i]) by {
            assert(gout_in_group(labelled_point("G".spec_bytes(), i as u64)));
        }
        assert forall|i: int| 0 <= i < hs.len() implies #[trigger] gout_in_group(hs[i]) by {
            assert(hs[i] == g.h_vec@[i]@);
            assert(gout_in_group(labelled_point("H".spec_bytes(), i as u64)));
        }
    }
}

/// `B^value · B_blinding^blinding`, in the order in which it is computed.
pub open spec fn pedersen(b: GoutPoint, b_blinding: GoutPoint, value: int, blinding: int) -> GoutPoint {
    gout_sum(gout_scale(b, value), gout_scale(b_blinding, blinding))
}

/// `p` is the Pedersen commitment. With zero blinding it is `B^value`, whatever the blinding
/// base, and `g_out^value` for `B = g_out`. In the prime-order group its exponent is
/// `value·log b + blinding·log b_blinding`.
pub open spec fn pedersen_is(
    b: GoutPoint,
    b_blinding: GoutPoint,
    value: int,
    blinding: int,
    p: GoutPoint,
) -> bool {
    &&& p == pedersen(b, b_blinding, value, blinding)
    &&& blinding == 0 ==> p == gout_scale(b, value)
    &&& blinding == 0 && gout_is_pow(b, 1) && 0 <= value < fp_order() ==> gout_is_pow(p, value)
    &&& gout_in_group(b) && gout_in_group(b_blinding) ==> gout_in_group(p) && cong(
        gout_log(p),
        gout_log(b) * value + gout_log(b_blinding) * blinding,
        fp_order(),
    )
}

/// Pedersen commitment to `value` with the given bases.
pub fn pedersen_commit(b: &GoutAffine, b_blinding: &GoutAffine, value: &Fp, blinding: &Fp) -> (r:
    GoutAffine)
    ensures
        pedersen_is(b@, b_blinding@, value@, blinding@, r@),
{
    let x = b.times(value);
    let y = b_blinding.times(blinding);
    let r = x.plus(&y);
    proof {
        if gout_is_pow(b@, 1) {
            lemma_gout_log(b@, 1);
            lemma_fp_range(*value);
            lemma_fp_order();
            let v = value@;
            assert(1 * v == v);
            lemma_mod_reduced(v, fp_order());
        }
        if gout_in_group(b@) && gout_in_group(b_blinding@) {
            let m = fp_order();
            lemma_fp_order();
            let (e, f) = (gout_log(b@) * value@, gout_log(b_blinding@) * blinding@);
            lemma_gout_log(x@, e % m);
            lemma_gout_log(y@, f % m);
            lemma_gout_log(r@, (e % m + f % m) % m);
            lemma_cong_mod(e, m);
            lemma_cong_mod(f, m);
            lemma_cong_add(e % m, e, f % m, f, m);
            lemma_cong_mod(e % m + f % m, m);
        }
    }
    r
}

/// Pedersen generators on their own.
#[derive(Clone, Debug)]
pub struct PedersenGens {
    pub b: GoutAffine,
    pub b_blinding: GoutAffine,
}

impl PedersenGens {
    /// `B` is `g_out`, and the blinding base is the hash of its label.
    pub open spec fn labelled(&self) -> bool {
        &&& gout_is_pow(self.b@, 1)
        &&& self.b_blinding@ == labelled_point("B_blinding".spec_bytes(), 0)
    }

    /// Both bases are in the prime-order group.
    pub open spec fn in_group(&self) -> bool {
        gout_in_group(self.b@) && gout_in_group(self.b_blinding@)
    }

    pub fn new() -> (r: Self)
        ensures
            r.labelled(),
    {
        PedersenGens { b: gout_gen(), b_blinding: hash_to_gout_h2c("B_blinding".as_bytes(), 0) }
    }

    /// Whether both bases are in the prime-order group.
    pub fn check(&self) -> (r: bool)
        ensures
            r == self.in_group(),
    {
        is_in_prime_subgroup(&self.b) && is_in_prime_subgroup(&self.b_blinding)
    }

    /// `B^value · B_blinding^blinding`.
    pub fn commit(&self, value: &Fp, blinding: &Fp) -> (r: GoutAffine)
        ensures
            pedersen_is(self.b@, self.b_blinding@, value@, blinding@, r@),
    {
        pedersen_commit(&self.b, &self.b_blinding, value, blinding)
    }
}

impl Default for PedersenGens {
    fn default() -> (r: Self)
        ensures
            r.labelled(),
    {
        PedersenGens::new()
    }
}

/// Commitments with bases in the prime-order group, which [`PedersenGens::check`] tests, add
/// up: the sum of the commitments to `v` and `w` is that to `v + w`, with the sum of the
/// blinding factors.
pub proof fn law_pedersen_adds_up(
    g: PedersenGens,
    v: int,
    beta: int,
    w: int,
    gamma: int,
    p: GoutPoint,
    q: GoutPoint,
    sum: GoutPoint,
    both: GoutPoint,
)
    requires
        g.in_group(),
        pedersen_is(g.b@, g.b_blinding@, v, beta, p),
        pedersen_is(g.b@, g.b_blinding@, w, gamma, q),
        gout_sum_is(p, q, sum),
        pedersen_is(
            g.b@,
            g.b_blinding@,
            (v + w) % fp_order(),
            (beta + gamma) % fp_order(),
            both,
        ),
    ensures
        sum == both,
{
    let m = fp_order();
    lemma_fp_order();
    let (l, k) = (gout_log(g.b@), gout_log(g.b_blinding@));
    let (x, y) = ((v + w) % m, (beta + gamma) % m);
    lemma_gout_log(sum, (gout_log(p) + gout_log(q)) % m);
    lemma_cong_mod(gout_log(p) + gout_log(q), m);
    lemma_cong_add(gout_log(p), l * v + k * beta, gout_log(q), l * w + k * gamma, m);
    // l·(v + w) + k·(β + γ)
    lemma_cong_mod(v + w, m);
    lemma_cong_mod(beta + gamma, m);
    lemma_cong_mul(l, l, x, v + w, m);
    lemma_cong_mul(k, k, y, beta + gamma, m);
    lemma_cong_add(l * x, l * (v + w), k * y, k * (beta + gamma), m);
    assert(l * (v + w) == l * v + l * w) by (nonlinear_arith);
    assert(k * (beta + gamma) == k * beta + k * gamma) by (nonlinear_arith);
    lemma_gout_eq(sum, both);
    lemma_gout_eq(both, sum);
    lemma_cong_small(gout_log(sum), gout_log(both), m);
}

/// A commitment with zero blinding is the public point `g_out^v`, whatever the blinding base.
pub proof fn law_zero_blinding_is_public(g: PedersenGens, v: int, p: GoutPoint)
    requires
        g.labelled(),
        0 <= v < fp_order(),
        pedersen_is(g.b@, g.b_blinding@, v, 0, p),
    ensures
        p == gout_pow(v),
{
}

/// Pedersen generators on their own commit as a prover over Bulletproofs generators does.
pub proof fn law_generators_commit_alike(
    g: PedersenGens,
    gens: BpGens,
    v: int,
    blinding: int,
    p: GoutPoint,
    q: GoutPoint,
)
    requires
        g.labelled(),
        gens.labelled(),
        pedersen_is(g.b@, g.b_blinding@, v, blinding, p),
        pedersen_is(gens.b@, gens.b_blinding@, v, blinding, q),
    ensures
        p == q,
{
}

/// What [`hash_to_gout_known_dlog`] hashes.
pub open spec fn known_dlog_input(label: Seq<u8>, i: u64) -> Seq<u8> {
    "golden-nidkg/bp-gens-fast/v1".spec_bytes() + label + spec_u64_to_le_bytes(i)
}

/// A cheaper hash to `G1` of a label and an index, for uses where the discrete
/// logarithm may be known: it is the digest modulo `p`.
pub fn hash_to_gout_known_dlog(label: &[u8], i: u64) -> (r: GoutAffine)
    ensures
        gout_is_pow(r@, le_value(sha512(known_dlog_input(label@, i))) % fp_order()),
{
    let mut msg: Vec<u8> = Vec::new();
    append_slice(&mut msg, "golden-nidkg/bp-gens-fast/v1".as_bytes());
    append_slice(&mut msg, label);
    let mut index = u64_to_le_bytes(i);
    msg.append(&mut index);
    assert(msg@ =~= known_dlog_input(label@, i));
    let digest = sha512_digest(msg.as_slice());
    let s = Fp::from_le_bytes_mod_order(digest.as_slice());
    gout_mul(&s)
}

} // verus!
