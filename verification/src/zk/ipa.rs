//! Logarithmic-size inner-product argument.
//!
//! Proves knowledge of vectors `a, b ∈ F_p^n` with `P = G^a · H^b · Q^{<a,b>}` for
//! public bases `G, H ∈ G_out^n` and `Q ∈ G_out`, with a proof of `2·log₂ n` points
//! and two scalars. Every round halves the vectors and sends two points `L` and `R`.
use crate::algebra::{
    cong, dot, lemma_cong_add, lemma_cong_mod, lemma_cong_mul, lemma_cong_small, lemma_cong_sub,
    lemma_mod_reduced, lemma_pow_succ, lemma_sigma_add, lemma_sigma_cong, lemma_sigma_eq,
    lemma_sigma_scale, sigma,
};
use crate::curves::{
    extend_gouts, gout_in_group, gout_is_pow, gout_log, gout_logs, gout_msm, gout_pow, gout_scale,
    gout_sum, gouts, gouts_in_group, lemma_gout_eq, lemma_gout_log, par_points, Fp, GoutAffine,
    GoutPoint,
};
use crate::errors::{append_decimal, decimal};
use crate::field::{copy_fps, extend_fps, fp_order, fps, lemma_fp_order, lemma_fp_range};
use crate::lagrange::{inv, invertible, lemma_inv, lemma_inv_unique};
use crate::transcript::{
    ev_challenge, ev_gout, fp_challenge, transcript_log, TranscriptEvent, TranscriptExt,
};
use merlin::Transcript;
use vstd::arithmetic::power::{lemma_pow0, pow};
use vstd::arithmetic::power2::{lemma_pow2, lemma_pow2_pos, lemma_pow2_unfold, pow2};
use vstd::prelude::*;
use vstd::slice::slice_subrange;
use vstd::string::{StringExecFns, StringSliceAdditionalSpecFns};

verus! {

// ─── vectors ────────────────────────────────────────────────────────────────

/// `⟨a, b⟩`.
pub fn inner_product(a: &[Fp], b: &[Fp]) -> (r: Fp)
    requires
        a@.len() == b@.len(),
    ensures
        r@ == dot(fps(a@), fps(b@)) % fp_order(),
{
    let ghost m = fp_order();
    let ghost f = |i: int| fps(a@)[i] * fps(b@)[i];
    let mut acc = Fp::zero();
    let mut i: usize = 0;
    proof {
        lemma_fp_order();
        lemma_mod_reduced(0, m);
    }
    while i < a.len()
        invariant
            i <= a@.len(),
            a@.len() == b@.len(),
            m == fp_order(),
            m > 1,
            f == (|i: int| fps(a@)[i] * fps(b@)[i]),
            acc@ == sigma(i as nat, f) % m,
        decreases a@.len() - i,
    {
        let ghost acc0 = acc@;
        let x = a[i] * b[i];
        acc = acc + x;
        proof {
            lemma_cong_mod(f(i as int), m);
            lemma_cong_mod(sigma(i as nat, f), m);
            lemma_cong_add(acc0, sigma(i as nat, f), x@, f(i as int), m);
        }
        i = i + 1;
    }
    acc
}

/// Vandermonde powers `1, x, x², …, x^{n-1}`.
pub fn powers(x: Fp, n: usize) -> (r: Vec<Fp>)
    ensures
        r@.len() == n,
        forall|i: int| 0 <= i < n ==> (#[trigger] r@[i])@ == pow(x@, i as nat) % fp_order(),
{
    let mut out: Vec<Fp> = Vec::with_capacity(n);
    let mut acc = Fp::one();
    let mut i: usize = 0;
    proof {
        lemma_fp_order();
        lemma_pow0(x@);
        lemma_mod_reduced(1, fp_order());
    }
    while i < n
        invariant
            i <= n,
            out@.len() == i,
            fp_order() > 1,
            acc@ == pow(x@, i as nat) % fp_order(),
            forall|k: int| 0 <= k < i ==> (#[trigger] out@[k])@ == pow(x@, k as nat) % fp_order(),
        decreases n - i,
    {
        out.push(acc);
        let ghost acc0 = acc@;
        acc = acc * x;
        proof {
            lemma_pow_succ(x@, i as nat);
            lemma_cong_mod(pow(x@, i as nat), fp_order());
            lemma_cong_mul(acc0, pow(x@, i as nat), x@, x@, fp_order());
        }
        i = i + 1;
    }
    out
}

/// `(x − 1)·∑_{i<n} x^i = x^n − 1`.
proof fn lemma_geometric(x: int, n: nat)
    ensures
        sigma(n, |i: int| pow(x, i as nat)) * (x - 1) == pow(x, n) - 1,
    decreases n,
{
    let f = |i: int| pow(x, i as nat);
    if n == 0 {
        lemma_pow0(x);
        assert(0 * (x - 1) == 0);
    } else {
        let k = (n - 1) as nat;
        lemma_geometric(x, k);
        lemma_pow_succ(x, k);
        let (s, p) = (sigma(k, f), pow(x, k));
        assert((s + p) * (x - 1) == s * (x - 1) + (p * x - p)) by (nonlinear_arith);
    }
}

/// `∑_{i=0}^{n-1} x^i = (x^n - 1) / (x - 1)`.
pub fn sum_of_powers(x: Fp, n: usize) -> (r: Fp)
    ensures
        r@ == sigma(n as nat, |i: int| pow(x@, i as nat)) % fp_order(),
{
    let ghost m = fp_order();
    let ghost f = |i: int| pow(x@, i as nat);
    proof {
        lemma_fp_order();
    }
    if x.is_one() {
        proof {
            lemma_ones(n as nat);
            lemma_mod_reduced(n as int, m);
        }
        return Fp::from(n as u64);
    }
    if n == 0 {
        proof {
            lemma_mod_reduced(0, m);
        }
        return Fp::zero();
    }
    let p = x.pow(n as u64);
    let num = p - Fp::one();
    let den = x - Fp::one();
    proof {
        lemma_fp_range(x);
        if den@ == 0 {
            lemma_cong_mod(x@ - 1, m);
            crate::algebra::lemma_cong_diff(x@, 1, m);
            lemma_cong_small(x@, 1, m);
        }
    }
    let den_inv = den.inverse().unwrap();
    let r = num * den_inv;
    proof {
        let s = sigma(n as nat, f);
        lemma_geometric(x@, n as nat);
        lemma_cong_mod(pow(x@, n as nat), m);
        lemma_cong_sub(p@, pow(x@, n as nat), 1, 1, m);
        lemma_cong_mod(p@ - 1, m);
        lemma_cong_mod(x@ - 1, m);
        lemma_cong_mul(num@, s * (x@ - 1), den_inv@, den_inv@, m);
        assert((s * (x@ - 1)) * den_inv@ == s * ((x@ - 1) * den_inv@)) by (nonlinear_arith);
        lemma_cong_mul(x@ - 1, den@, den_inv@, den_inv@, m);
        lemma_mod_reduced(1, m);
        lemma_cong_mul(s, s, (x@ - 1) * den_inv@, 1, m);
        assert(s * 1 == s);
        lemma_sigma_eq(n as nat, f, |i: int| pow(x@, i as nat));
    }
    r
}

proof fn lemma_ones(n: nat)
    ensures
        sigma(n, |i: int| pow(1, i as nat)) == n,
    decreases n,
{
    if n > 0 {
        lemma_ones((n - 1) as nat);
        vstd::arithmetic::power::lemma1_pow((n - 1) as nat);
    }
}

// ─── one round ──────────────────────────────────────────────────────────────

/// The lower half.
pub open spec fn lo<T>(s: Seq<T>) -> Seq<T> {
    s.subrange(0, (s.len() / 2) as int)
}

/// The upper half.
pub open spec fn hi<T>(s: Seq<T>) -> Seq<T> {
    s.subrange((s.len() / 2) as int, s.len() as int)
}

/// `c·(lower half) + d·(upper half)`.
pub open spec fn fold(s: Seq<int>, c: int, d: int) -> Seq<int> {
    Seq::new(s.len() / 2, |i: int| (s[i] * c + s[s.len() / 2 + i] * d) % fp_order())
}

/// `c·(lower half) + d·(upper half)` for points.
pub open spec fn fold_points(s: Seq<GoutPoint>, c: int, d: int) -> Seq<GoutPoint> {
    Seq::new(
        s.len() / 2,
        |i: int| gout_sum(gout_scale(s[i], c), gout_scale(s[s.len() / 2 + i], d)),
    )
}

/// `G^x · H^y · Q^c`, in the order in which a round computes it.
pub open spec fn round_point(
    g: Seq<GoutPoint>,
    x: Seq<int>,
    h: Seq<GoutPoint>,
    y: Seq<int>,
    q: GoutPoint,
    c: int,
) -> GoutPoint {
    gout_sum(gout_sum(gout_msm(g, x), gout_msm(h, y)), gout_scale(q, c))
}

/// Bases, vectors, transcript and the points sent so far.
pub struct IpaState {
    pub log: Seq<TranscriptEvent>,
    pub l: Seq<GoutPoint>,
    pub r: Seq<GoutPoint>,
    pub g: Seq<GoutPoint>,
    pub h: Seq<GoutPoint>,
    pub a: Seq<int>,
    pub b: Seq<int>,
}

/// The transcript after a round has sent `l` and `r`.
pub open spec fn round_log(
    log: Seq<TranscriptEvent>,
    l: GoutPoint,
    r: GoutPoint,
) -> Seq<TranscriptEvent> {
    log.push(ev_gout("L".spec_bytes(), l)).push(ev_gout("R".spec_bytes(), r))
}

/// All rounds from a state on; `None` if a challenge is zero.
pub open spec fn ipa_run(q: GoutPoint, st: IpaState) -> Option<IpaState>
    decreases st.a.len(),
{
    if st.a.len() <= 1 {
        Some(st)
    } else {
        let l = round_point(
            hi(st.g),
            lo(st.a),
            lo(st.h),
            hi(st.b),
            q,
            dot(lo(st.a), hi(st.b)) % fp_order(),
        );
        let r = round_point(
            lo(st.g),
            hi(st.a),
            hi(st.h),
            lo(st.b),
            q,
            dot(hi(st.a), lo(st.b)) % fp_order(),
        );
        let log = round_log(st.log, l, r);
        let u = fp_challenge(log, "u".spec_bytes());
        if u == 0 {
            None
        } else {
            ipa_run(
                q,
                IpaState {
                    log: log.push(ev_challenge("u".spec_bytes())),
                    l: st.l.push(l),
                    r: st.r.push(r),
                    g: fold_points(st.g, inv(u), u),
                    h: fold_points(st.h, u, inv(u)),
                    a: fold(st.a, u, inv(u)),
                    b: fold(st.b, inv(u), u),
                },
            )
        }
    }
}

/// The challenges of the rounds that send the points `l` and `r`.
pub open spec fn ipa_challenges(
    log: Seq<TranscriptEvent>,
    l: Seq<GoutPoint>,
    r: Seq<GoutPoint>,
) -> Seq<int>
    decreases l.len(),
{
    if l.len() == 0 {
        Seq::empty()
    } else {
        let log1 = round_log(log, l[0], r[0]);
        seq![fp_challenge(log1, "u".spec_bytes())] + ipa_challenges(
            log1.push(ev_challenge("u".spec_bytes())),
            l.drop_first(),
            r.drop_first(),
        )
    }
}

/// The transcript after the rounds that send the points `l` and `r`.
pub open spec fn ipa_log(
    log: Seq<TranscriptEvent>,
    l: Seq<GoutPoint>,
    r: Seq<GoutPoint>,
) -> Seq<TranscriptEvent>
    decreases l.len(),
{
    if l.len() == 0 {
        log
    } else {
        ipa_log(
            round_log(log, l[0], r[0]).push(ev_challenge("u".spec_bytes())),
            l.drop_first(),
            r.drop_first(),
        )
    }
}

/// The inverse; zero for zero.
pub open spec fn inv0(u: int) -> int {
    if u == 0 {
        0
    } else {
        inv(u)
    }
}

/// `c · s`, reduced.
pub open spec fn scale(s: Seq<int>, c: int) -> Seq<int> {
    Seq::new(s.len(), |i: int| (s[i] * c) % fp_order())
}

/// The weights of the bases `G` after all rounds: `∏ u_k^{±1}`, with the sign of
/// round `k` given by the half that the base was in.
pub open spec fn s_vec(us: Seq<int>) -> Seq<int>
    decreases us.len(),
{
    if us.len() == 0 {
        seq![1]
    } else {
        let t = s_vec(us.drop_first());
        scale(t, inv0(us[0])) + scale(t, us[0])
    }
}

/// `∑ u_k²·l_k + u_k^{-2}·r_k`.
pub open spec fn rounds_sum(us: Seq<int>, ls: Seq<int>, rs: Seq<int>) -> int
    decreases us.len(),
{
    if us.len() == 0 {
        0
    } else {
        ((us[0] * us[0]) * ls[0] + (inv0(us[0]) * inv0(us[0])) * rs[0]) + rounds_sum(
            us.drop_first(),
            ls.drop_first(),
            rs.drop_first(),
        )
    }
}

/// `⟨a, g⟩ + ⟨b, h⟩ + q·⟨a, b⟩`, the exponent of `G^a · H^b · Q^{<a,b>}`.
pub open spec fn ipa_exponent(q: int, g: Seq<int>, h: Seq<int>, a: Seq<int>, b: Seq<int>) -> int {
    dot(a, g) + dot(b, h) + q * dot(a, b)
}

/// What the verifier puts in the place of [`ipa_exponent`]: the final scalars at
/// the weighted bases, less what the rounds have sent.
pub open spec fn ipa_folded_exponent(
    q: int,
    g: Seq<int>,
    h: Seq<int>,
    us: Seq<int>,
    ls: Seq<int>,
    rs: Seq<int>,
    a: int,
    b: int,
) -> int {
    a * dot(s_vec(us), g) + b * dot(s_vec(us).reverse(), h) + q * (a * b) - rounds_sum(us, ls, rs)
}

pub proof fn lemma_s_vec_len(us: Seq<int>)
    ensures
        s_vec(us).len() == pow2(us.len()),
    decreases us.len(),
{
    if us.len() == 0 {
        lemma_pow2(0);
        vstd::arithmetic::power::lemma_pow0(2);
    } else {
        lemma_s_vec_len(us.drop_first());
        lemma_pow2_unfold(us.len());
    }
}

// ─── why folding works ──────────────────────────────────────────────────────

proof fn lemma_dot_halves(x: Seq<int>, y: Seq<int>)
    requires
        x.len() == y.len(),
    ensures
        dot(x, y) == dot(lo(x), lo(y)) + dot(hi(x), hi(y)),
{
    crate::algebra::lemma_dot_concat(lo(x), lo(y), hi(x), hi(y));
    assert(lo(x) + hi(x) =~= x);
    assert(lo(y) + hi(y) =~= y);
}

/// The inner product of two vectors that are folded with swapped weights.
proof fn lemma_fold_dot(x: Seq<int>, y: Seq<int>, u: int, v: int)
    requires
        x.len() == y.len(),
        x.len() % 2 == 0,
        cong(u * v, 1, fp_order()),
    ensures
        cong(
            dot(fold(x, u, v), fold(y, v, u)),
            dot(x, y) + (u * u) * dot(lo(x), hi(y)) + (v * v) * dot(hi(x), lo(y)),
            fp_order(),
        ),
{
    let m = fp_order();
    lemma_fp_order();
    let n = x.len() / 2;
    let (fx, fy) = (fold(x, u, v), fold(y, v, u));
    let f = |i: int| fx[i] * fy[i];
    let ll = |i: int| lo(x)[i] * lo(y)[i];
    let hh = |i: int| hi(x)[i] * hi(y)[i];
    let lh = |i: int| lo(x)[i] * hi(y)[i];
    let hl = |i: int| hi(x)[i] * lo(y)[i];
    let uu = |i: int| (u * u) * lh(i);
    let vv = |i: int| (v * v) * hl(i);
    let s1 = |i: int| ll(i) + hh(i);
    let s2 = |i: int| s1(i) + uu(i);
    let g = |i: int| s2(i) + vv(i);
    assert forall|i: int| 0 <= i < n implies cong(#[trigger] f(i), g(i), m) by {
        let (x1, x2, y1, y2) = (x[i], x[n + i], y[i], y[n + i]);
        assert(hi(x)[i] == x2 && hi(y)[i] == y2);
        lemma_cong_mod(x1 * u + x2 * v, m);
        lemma_cong_mod(y1 * v + y2 * u, m);
        lemma_cong_mul(fx[i], x1 * u + x2 * v, fy[i], y1 * v + y2 * u, m);
        lemma_expand(x1, x2, y1, y2, u, v);
        let k = x1 * y1 + x2 * y2;
        lemma_cong_mul(u * v, 1, k, k, m);
        let rest = (u * u) * (x1 * y2) + (v * v) * (x2 * y1);
        lemma_cong_add((u * v) * k, 1 * k, rest, rest, m);
        assert(1 * k == k);
    }
    lemma_sigma_cong(n, f, g, m);
    lemma_sigma_add(n, s2, vv);
    lemma_sigma_add(n, s1, uu);
    lemma_sigma_add(n, ll, hh);
    lemma_sigma_scale(n, u * u, lh);
    lemma_sigma_scale(n, v * v, hl);
    lemma_dot_halves(x, y);
    lemma_sigma_eq(n, ll, |i: int| lo(x)[i] * lo(y)[i]);
    lemma_sigma_eq(n, hh, |i: int| hi(x)[i] * hi(y)[i]);
    lemma_sigma_eq(n, lh, |i: int| lo(x)[i] * hi(y)[i]);
    lemma_sigma_eq(n, hl, |i: int| hi(x)[i] * lo(y)[i]);
    lemma_sigma_eq(n, f, |i: int| fx[i] * fy[i]);
    assert(hi(x).len() == n);
}

proof fn lemma_expand(x1: int, x2: int, y1: int, y2: int, u: int, v: int)
    ensures
        (x1 * u + x2 * v) * (y1 * v + y2 * u) == (u * v) * (x1 * y1 + x2 * y2) + ((u * u) * (x1 * y2)
            + (v * v) * (x2 * y1)),
{
    let (a, b, c, d) = (x1 * u, x2 * v, y1 * v, y2 * u);
    assert((a + b) * (c + d) == a * c + a * d + b * c + b * d) by (nonlinear_arith);
    assert((x1 * u) * (y1 * v) == (u * v) * (x1 * y1)) by (nonlinear_arith);
    assert((x1 * u) * (y2 * u) == (u * u) * (x1 * y2)) by (nonlinear_arith);
    assert((x2 * v) * (y1 * v) == (v * v) * (x2 * y1)) by (nonlinear_arith);
    assert((x2 * v) * (y2 * u) == (u * v) * (x2 * y2)) by (nonlinear_arith);
    let (e, p, r) = (u * v, x1 * y1, x2 * y2);
    assert(e * (p + r) == e * p + e * r) by (nonlinear_arith);
}

/// Folding the bases is weighing the halves.
proof fn lemma_scale_dot(t: Seq<int>, g: Seq<int>, u: int, v: int)
    requires
        g.len() == 2 * t.len(),
    ensures
        cong(dot(scale(t, v) + scale(t, u), g), dot(t, fold(g, v, u)), fp_order()),
{
    let m = fp_order();
    lemma_fp_order();
    let n = t.len();
    let (tv, tu) = (scale(t, v), scale(t, u));
    assert(g =~= lo(g) + hi(g));
    crate::algebra::lemma_dot_concat(tv, lo(g), tu, hi(g));
    let f1 = |i: int| tv[i] * lo(g)[i];
    let f2 = |i: int| tu[i] * hi(g)[i];
    let f = |i: int| f1(i) + f2(i);
    let fg = fold(g, v, u);
    let h = |i: int| t[i] * fg[i];
    lemma_sigma_add(n, f1, f2);
    assert forall|i: int| 0 <= i < n implies cong(#[trigger] f(i), h(i), m) by {
        let (x, g1, g2) = (t[i], g[i], g[n + i]);
        assert(hi(g)[i] == g2);
        lemma_cong_mod(x * v, m);
        lemma_cong_mod(x * u, m);
        lemma_cong_mul(tv[i], x * v, g1, g1, m);
        lemma_cong_mul(tu[i], x * u, g2, g2, m);
        lemma_cong_add(tv[i] * g1, (x * v) * g1, tu[i] * g2, (x * u) * g2, m);
        lemma_cong_mod(g1 * v + g2 * u, m);
        lemma_cong_mul(x, x, fg[i], g1 * v + g2 * u, m);
        assert((x * v) * g1 + (x * u) * g2 == x * (g1 * v + g2 * u)) by {
            assert((x * v) * g1 == x * (g1 * v)) by (nonlinear_arith);
            assert((x * u) * g2 == x * (g2 * u)) by (nonlinear_arith);
            let (p, q) = (g1 * v, g2 * u);
            assert(x * (p + q) == x * p + x * q) by (nonlinear_arith);
        }
    }
    lemma_sigma_cong(n, f, h, m);
    lemma_sigma_eq(n, f1, |i: int| tv[i] * lo(g)[i]);
    lemma_sigma_eq(n, f2, |i: int| tu[i] * hi(g)[i]);
    lemma_sigma_eq(n, h, |i: int| t[i] * fg[i]);
}

/// One round keeps the exponent, up to what it sends.
proof fn lemma_round(
    q: int,
    g: Seq<int>,
    h: Seq<int>,
    a: Seq<int>,
    b: Seq<int>,
    u: int,
    v: int,
    l: int,
    r: int,
)
    requires
        a.len() == b.len() == g.len() == h.len(),
        a.len() % 2 == 0,
        cong(u * v, 1, fp_order()),
        cong(l, dot(lo(a), hi(g)) + dot(hi(b), lo(h)) + q * dot(lo(a), hi(b)), fp_order()),
        cong(r, dot(hi(a), lo(g)) + dot(lo(b), hi(h)) + q * dot(hi(a), lo(b)), fp_order()),
    ensures
        cong(
            ipa_exponent(q, fold(g, v, u), fold(h, u, v), fold(a, u, v), fold(b, v, u)),
            ipa_exponent(q, g, h, a, b) + ((u * u) * l + (v * v) * r),
            fp_order(),
        ),
{
    let m = fp_order();
    lemma_fp_order();
    assert(v * u == u * v) by (nonlinear_arith);
    lemma_fold_dot(a, g, u, v);
    lemma_fold_dot(b, h, v, u);
    lemma_fold_dot(a, b, u, v);
    let (fa, fb, fg, fh) = (fold(a, u, v), fold(b, v, u), fold(g, v, u), fold(h, u, v));
    let (u2, v2) = (u * u, v * v);
    let (ag1, ag2) = (dot(lo(a), hi(g)), dot(hi(a), lo(g)));
    let (bh1, bh2) = (dot(lo(b), hi(h)), dot(hi(b), lo(h)));
    let (ab1, ab2) = (dot(lo(a), hi(b)), dot(hi(a), lo(b)));
    let x = dot(a, g) + u2 * ag1 + v2 * ag2;
    let y = dot(b, h) + v2 * bh1 + u2 * bh2;
    let z = dot(a, b) + u2 * ab1 + v2 * ab2;
    lemma_cong_mul(q, q, dot(fa, fb), z, m);
    lemma_cong_add(dot(fa, fg), x, dot(fb, fh), y, m);
    lemma_cong_add(dot(fa, fg) + dot(fb, fh), x + y, q * dot(fa, fb), q * z, m);
    let le = ag1 + bh2 + q * ab1;
    let re = ag2 + bh1 + q * ab2;
    lemma_cong_mul(u2, u2, l, le, m);
    lemma_cong_mul(v2, v2, r, re, m);
    lemma_cong_add(u2 * l, u2 * le, v2 * r, v2 * re, m);
    let e = ipa_exponent(q, g, h, a, b);
    lemma_cong_add(e, e, u2 * l + v2 * r, u2 * le + v2 * re, m);
    assert(x + y + q * z == e + (u2 * le + v2 * re)) by {
        let d = dot(a, b);
        let (p1, p2) = (q * ab1, q * ab2);
        assert(u2 * (ag1 + bh2 + p1) == u2 * ag1 + u2 * bh2 + u2 * p1) by (nonlinear_arith);
        assert(v2 * (ag2 + bh1 + p2) == v2 * ag2 + v2 * bh1 + v2 * p2) by (nonlinear_arith);
        let (k1, k2) = (u2 * ab1, v2 * ab2);
        assert(q * (d + k1 + k2) == q * d + q * k1 + q * k2) by (nonlinear_arith);
        assert(q * (u2 * ab1) == u2 * (q * ab1)) by (nonlinear_arith);
        assert(q * (v2 * ab2) == v2 * (q * ab2)) by (nonlinear_arith);
    }
}

/// The verifier's exponent before a round is that after it, less what the round
/// sends.
proof fn lemma_folded_round(
    q: int,
    g: Seq<int>,
    h: Seq<int>,
    us: Seq<int>,
    ls: Seq<int>,
    rs: Seq<int>,
    a: int,
    b: int,
)
    requires
        us.len() > 0,
        us[0] != 0,
        g.len() == h.len() == pow2(us.len()),
    ensures
        ({
            let (u, v) = (us[0], inv(us[0]));
            cong(
                ipa_folded_exponent(q, g, h, us, ls, rs, a, b),
                ipa_folded_exponent(
                    q,
                    fold(g, v, u),
                    fold(h, u, v),
                    us.drop_first(),
                    ls.drop_first(),
                    rs.drop_first(),
                    a,
                    b,
                ) - ((u * u) * ls[0] + (v * v) * rs[0]),
                fp_order(),
            )
        }),
{
    let m = fp_order();
    lemma_fp_order();
    let (u, v) = (us[0], inv(us[0]));
    let rest = us.drop_first();
    let t = s_vec(rest);
    lemma_s_vec_len(rest);
    lemma_pow2_unfold(us.len());
    let s = s_vec(us);
    assert(s == scale(t, v) + scale(t, u));
    lemma_scale_dot(t, g, u, v);
    let tr = t.reverse();
    assert(s.reverse() =~= scale(tr, u) + scale(tr, v));
    lemma_scale_dot(tr, h, v, u);
    let (fg, fh) = (fold(g, v, u), fold(h, u, v));
    lemma_cong_mul(a, a, dot(s, g), dot(t, fg), m);
    lemma_cong_mul(b, b, dot(s.reverse(), h), dot(tr, fh), m);
    lemma_cong_add(a * dot(s, g), a * dot(t, fg), b * dot(s.reverse(), h), b * dot(tr, fh), m);
    let k = q * (a * b) - rounds_sum(us, ls, rs);
    lemma_cong_add(
        a * dot(s, g) + b * dot(s.reverse(), h),
        a * dot(t, fg) + b * dot(tr, fh),
        k,
        k,
        m,
    );
}

// ─── the argument ───────────────────────────────────────────────────────────

/// An inner-product proof: the points of the rounds and the two final scalars.
#[derive(Clone, Debug)]
pub struct InnerProductProof {
    pub l_vec: Vec<GoutAffine>,
    pub r_vec: Vec<GoutAffine>,
    pub a: Fp,
    pub b: Fp,
}

/// `n` is a power of two.
pub open spec fn is_two_power(n: nat) -> bool {
    exists|k: nat| n == #[trigger] pow2(k)
}

/// The challenges are not zero.
pub open spec fn all_invertible(us: Seq<int>) -> bool {
    forall|k: int| 0 <= k < us.len() ==> #[trigger] us[k] != 0 && invertible(us[k])
}

proof fn lemma_dot_comm(a: Seq<int>, b: Seq<int>)
    requires
        a.len() == b.len(),
    ensures
        dot(a, b) == dot(b, a),
{
    let f = |i: int| a[i] * b[i];
    let g = |i: int| b[i] * a[i];
    assert forall|i: int| 0 <= i < a.len() implies #[trigger] f(i) == g(i) by {
        let (x, y) = (a[i], b[i]);
        assert(x * y == y * x) by (nonlinear_arith);
    }
    lemma_sigma_eq(a.len(), f, g);
}

/// `c·(lower half) + d·(upper half)`.
fn fold_fps(v: &[Fp], c: Fp, d: Fp) -> (r: Vec<Fp>)
    ensures
        fps(r@) == fold(fps(v@), c@, d@),
{
    let half: usize = v.len() / 2;
    let mut out: Vec<Fp> = Vec::with_capacity(half);
    let mut i: usize = 0;
    while i < half
        invariant
            i <= half,
            half == v@.len() / 2,
            out@.len() == i,
            forall|k: int|
                0 <= k < i ==> (#[trigger] out@[k])@ == (v@[k]@ * c@ + v@[half + k]@ * d@)
                    % fp_order(),
        decreases half - i,
    {
        let x = v[i] * c;
        let y = v[half + i] * d;
        out.push(x + y);
        proof {
            lemma_fp_order();
            vstd::arithmetic::div_mod::lemma_add_mod_noop(
                v@[i as int]@ * c@,
                v@[half + i]@ * d@,
                fp_order(),
            );
        }
        i = i + 1;
    }
    assert(fps(out@) =~= fold(fps(v@), c@, d@));
    out
}

/// `p` is entry `i` of `c·(lower half) + d·(upper half)`; in the prime-order group it has
/// the folded exponent.
spec fn folded(v: Seq<GoutPoint>, c: int, d: int, i: int, p: GoutPoint) -> bool {
    &&& p == fold_points(v, c, d)[i]
    &&& gouts_in_group(v) ==> gout_is_pow(p, fold(gout_logs(v), c, d)[i])
}

fn fold_gout(v: &[GoutAffine], c: Fp, d: Fp, i: usize) -> (r: GoutAffine)
    requires
        i < v@.len() / 2,
    ensures
        folded(gouts(v@), c@, d@, i as int, r@),
{
    let half: usize = v.len() / 2;
    let ghost logs = gout_logs(gouts(v@));
    let x = v[i].times(&c);
    let y = v[half + i].times(&d);
    let z = x.plus(&y);
    proof {
        lemma_fp_order();
        if gouts_in_group(gouts(v@)) {
            assert(gout_in_group(gouts(v@)[i as int]));
            assert(gout_in_group(gouts(v@)[half + i]));
            let (a, b) = (logs[i as int] * c@, logs[half + i] * d@);
            lemma_gout_log(x@, a % fp_order());
            lemma_gout_log(y@, b % fp_order());
            vstd::arithmetic::div_mod::lemma_add_mod_noop(a, b, fp_order());
        }
    }
    z
}

/// `c·(lower half) + d·(upper half)`.
fn fold_gouts(v: &[GoutAffine], c: Fp, d: Fp) -> (r: Vec<GoutAffine>)
    ensures
        gouts(r@) == fold_points(gouts(v@), c@, d@),
        gouts_in_group(gouts(v@)) ==> gouts_in_group(gouts(r@)) && gout_logs(gouts(r@)) == fold(
            gout_logs(gouts(v@)),
            c@,
            d@,
        ),
{
    let half: usize = v.len() / 2;
    let ghost logs = gout_logs(gouts(v@));
    let entry = |i: usize| -> (p: GoutAffine)
        requires
            i < v@.len() / 2,
        ensures
            folded(gouts(v@), c@, d@, i as int, p@),
        { fold_gout(v, c, d, i) };
    let out = par_points(half, entry);
    proof {
        assert forall|k: int| 0 <= k < half implies folded(
            gouts(v@),
            c@,
            d@,
            k,
            (#[trigger] out@[k])@,
        ) by {
            let i = k as usize;
            assert(call_ensures(entry, (i,), out@[i as int]));
        }
        assert(gouts(out@) =~= fold_points(gouts(v@), c@, d@));
        if gouts_in_group(gouts(v@)) {
            assert forall|k: int| 0 <= k < gouts(out@).len() implies #[trigger] gout_in_group(
                gouts(out@)[k],
            ) && gout_log(gouts(out@)[k]) == fold(logs, c@, d@)[k] by {
                lemma_gout_log(out@[k]@, fold(logs, c@, d@)[k]);
            }
            assert(gout_logs(gouts(out@)) =~= fold(logs, c@, d@));
        }
    }
    out
}

/// `G^x · H^y · Q^c`.
fn round_product(
    g: &[GoutAffine],
    x: &[Fp],
    h: &[GoutAffine],
    y: &[Fp],
    q: &GoutAffine,
    c: &Fp,
) -> (r: GoutAffine)
    requires
        g@.len() == x@.len(),
        h@.len() == y@.len(),
    ensures
        r@ == round_point(gouts(g@), fps(x@), gouts(h@), fps(y@), q@, c@),
        gouts_in_group(gouts(g@)) && gouts_in_group(gouts(h@)) && gout_in_group(q@) ==> {
            &&& gout_in_group(r@)
            &&& cong(
                gout_log(r@),
                dot(fps(x@), gout_logs(gouts(g@))) + dot(fps(y@), gout_logs(gouts(h@))) + gout_log(
                    q@,
                ) * c@,
                fp_order(),
            )
        },
{
    let m1 = GoutAffine::msm(g, x);
    let m2 = GoutAffine::msm(h, y);
    let s = m1.plus(&m2);
    let qc = q.times(c);
    let r = s.plus(&qc);
    proof {
        if gouts_in_group(gouts(g@)) && gouts_in_group(gouts(h@)) && gout_in_group(q@) {
            let m = fp_order();
            lemma_fp_order();
            let (gl, hl) = (gout_logs(gouts(g@)), gout_logs(gouts(h@)));
            let (d1, d2) = (dot(gl, fps(x@)), dot(hl, fps(y@)));
            lemma_dot_comm(gl, fps(x@));
            lemma_dot_comm(hl, fps(y@));
            lemma_gout_log(m1@, d1 % m);
            lemma_gout_log(m2@, d2 % m);
            lemma_gout_log(s@, (d1 % m + d2 % m) % m);
            let e = gout_log(q@) * c@;
            lemma_gout_log(qc@, e % m);
            lemma_gout_log(r@, (gout_log(s@) + e % m) % m);
            lemma_cong_mod(d1, m);
            lemma_cong_mod(d2, m);
            lemma_cong_mod(e, m);
            lemma_cong_add(d1 % m, d1, d2 % m, d2, m);
            lemma_cong_mod(d1 % m + d2 % m, m);
            lemma_cong_add(gout_log(s@), d1 + d2, e % m, e, m);
            lemma_cong_mod(gout_log(s@) + e % m, m);
        }
    }
    r
}

/// What the rounds from here on give: the points that they add to `l` and `r`, the
/// challenges, and the final scalars.
pub open spec fn rounds_done(
    log: Seq<TranscriptEvent>,
    log2: Seq<TranscriptEvent>,
    q: GoutPoint,
    g: Seq<GoutPoint>,
    h: Seq<GoutPoint>,
    a: Seq<int>,
    b: Seq<int>,
    l: Seq<GoutPoint>,
    r: Seq<GoutPoint>,
    fa: int,
    fb: int,
) -> bool {
    let us = ipa_challenges(log, l, r);
    &&& l.len() == r.len()
    &&& a.len() == pow2(l.len())
    &&& log2 == ipa_log(log, l, r)
    &&& us.len() == l.len()
    &&& all_invertible(us)
    &&& gout_in_group(q) && gouts_in_group(g) && gouts_in_group(h) ==> {
        &&& gouts_in_group(l)
        &&& gouts_in_group(r)
        &&& cong(
            ipa_exponent(gout_log(q), gout_logs(g), gout_logs(h), a, b),
            ipa_folded_exponent(
                gout_log(q),
                gout_logs(g),
                gout_logs(h),
                us,
                gout_logs(l),
                gout_logs(r),
                fa,
                fb,
            ),
            fp_order(),
        )
    }
}

/// Without rounds the two exponents are the same.
proof fn lemma_no_rounds(
    log: Seq<TranscriptEvent>,
    q: GoutPoint,
    g: Seq<GoutPoint>,
    h: Seq<GoutPoint>,
    a: Seq<int>,
    b: Seq<int>,
)
    requires
        a.len() == 1,
        b.len() == 1,
        g.len() == 1,
        h.len() == 1,
    ensures
        rounds_done(
            log,
            log,
            q,
            g,
            h,
            a,
            b,
            Seq::<GoutPoint>::empty(),
            Seq::<GoutPoint>::empty(),
            a[0],
            b[0],
        ),
{
    lemma_pow2(0);
    lemma_pow0(2);
    let e = Seq::<GoutPoint>::empty();
    let (gl, hl) = (gout_logs(g), gout_logs(h));
    let us = ipa_challenges(log, e, e);
    assert(us =~= Seq::<int>::empty());
    reveal_with_fuel(sigma, 2);
    let s = s_vec(us);
    assert(s =~= seq![1int]);
    assert(s.reverse() =~= seq![1int]);
    let (a0, b0, g0, h0) = (a[0], b[0], gl[0], hl[0]);
    assert(dot(a, gl) == a0 * g0);
    assert(dot(b, hl) == b0 * h0);
    assert(dot(a, b) == a0 * b0);
    assert(dot(s, gl) == 1 * g0);
    assert(dot(s.reverse(), hl) == 1 * h0);
    assert(1 * g0 == g0 && 1 * h0 == h0);
}

/// One round in front of the others.
proof fn lemma_round_before(
    log: Seq<TranscriptEvent>,
    log2: Seq<TranscriptEvent>,
    q: GoutPoint,
    g: Seq<GoutPoint>,
    h: Seq<GoutPoint>,
    a: Seq<int>,
    b: Seq<int>,
    l: Seq<GoutPoint>,
    r: Seq<GoutPoint>,
    fa: int,
    fb: int,
    l0: GoutPoint,
    r0: GoutPoint,
    u: int,
    g2: Seq<GoutPoint>,
    h2: Seq<GoutPoint>,
)
    requires
        a.len() == b.len() == g.len() == h.len(),
        a.len() % 2 == 0,
        a.len() >= 2,
        u == fp_challenge(round_log(log, l0, r0), "u".spec_bytes()),
        u != 0,
        invertible(u),
        rounds_done(
            round_log(log, l0, r0).push(ev_challenge("u".spec_bytes())),
            log2,
            q,
            g2,
            h2,
            fold(a, u, inv(u)),
            fold(b, inv(u), u),
            l,
            r,
            fa,
            fb,
        ),
        gouts_in_group(g) ==> gouts_in_group(g2) && gout_logs(g2) == fold(gout_logs(g), inv(u), u),
        gouts_in_group(h) ==> gouts_in_group(h2) && gout_logs(h2) == fold(gout_logs(h), u, inv(u)),
        gout_in_group(q) && gouts_in_group(g) && gouts_in_group(h) ==> {
            &&& gout_in_group(l0)
            &&& gout_in_group(r0)
            &&& cong(
                gout_log(l0),
                dot(lo(a), hi(gout_logs(g))) + dot(hi(b), lo(gout_logs(h))) + gout_log(q) * dot(
                    lo(a),
                    hi(b),
                ),
                fp_order(),
            )
            &&& cong(
                gout_log(r0),
                dot(hi(a), lo(gout_logs(g))) + dot(lo(b), hi(gout_logs(h))) + gout_log(q) * dot(
                    hi(a),
                    lo(b),
                ),
                fp_order(),
            )
        },
    ensures
        rounds_done(log, log2, q, g, h, a, b, seq![l0] + l, seq![r0] + r, fa, fb),
{
    let m = fp_order();
    lemma_fp_order();
    let (l1, r1) = (seq![l0] + l, seq![r0] + r);
    assert(l1.drop_first() =~= l);
    assert(r1.drop_first() =~= r);
    let log1 = round_log(log, l0, r0).push(ev_challenge("u".spec_bytes()));
    let us2 = ipa_challenges(log1, l, r);
    let us = ipa_challenges(log, l1, r1);
    assert(us == seq![u] + us2);
    assert(us.drop_first() =~= us2);
    assert forall|k: int| 0 <= k < us.len() implies #[trigger] us[k] != 0 && invertible(us[k]) by {
        if k > 0 {
            assert(us[k] == us2[k - 1]);
        }
    }
    lemma_pow2_unfold(l1.len());
    if gout_in_group(q) && gouts_in_group(g) && gouts_in_group(h) {
        assert forall|k: int| 0 <= k < l1.len() implies #[trigger] gout_in_group(l1[k]) by {
            if k > 0 {
                assert(gout_in_group(l[k - 1]));
            }
        }
        assert forall|k: int| 0 <= k < r1.len() implies #[trigger] gout_in_group(r1[k]) by {
            if k > 0 {
                assert(gout_in_group(r[k - 1]));
            }
        }
        let (gl, hl, ql, v) = (gout_logs(g), gout_logs(h), gout_log(q), inv(u));
        let (ls, rs) = (gout_logs(l1), gout_logs(r1));
        assert(ls.drop_first() =~= gout_logs(l));
        assert(rs.drop_first() =~= gout_logs(r));
        lemma_inv(u);
        lemma_round(ql, gl, hl, a, b, u, v, gout_log(l0), gout_log(r0));
        lemma_folded_round(ql, gl, hl, us, ls, rs, fa, fb);
        let e = ipa_exponent(ql, gl, hl, a, b);
        let e2 = ipa_exponent(
            ql,
            fold(gl, v, u),
            fold(hl, u, v),
            fold(a, u, v),
            fold(b, v, u),
        );
        let k = (u * u) * gout_log(l0) + (v * v) * gout_log(r0);
        let f = ipa_folded_exponent(ql, gl, hl, us, ls, rs, fa, fb);
        let f2 = ipa_folded_exponent(
            ql,
            fold(gl, v, u),
            fold(hl, u, v),
            us2,
            gout_logs(l),
            gout_logs(r),
            fa,
            fb,
        );
        // e + k ≡ e2 ≡ f2 and f ≡ f2 − k
        assert(cong(e2, e + k, m));
        assert(cong(e2, f2, m));
        assert(cong(f, f2 - k, m));
        lemma_cong_sub(e + k, f2, k, k, m);
    }
}

/// `f · p`, which is `p` itself for the factor one.
pub open spec fn scaled_point(p: GoutPoint, f: int) -> GoutPoint {
    if f == 1 {
        p
    } else {
        gout_scale(p, f)
    }
}

/// `f_i · g_i` for every base.
pub open spec fn scaled_points(g: Seq<GoutPoint>, f: Seq<int>) -> Seq<GoutPoint> {
    Seq::new(g.len(), |i: int| scaled_point(g[i], f[i]))
}

/// `f_i · g_i` for every exponent.
pub open spec fn scaled_logs(g: Seq<int>, f: Seq<int>) -> Seq<int> {
    Seq::new(g.len(), |i: int| (g[i] * f[i]) % fp_order())
}

/// Where the rounds begin: the factors are applied to the bases.
pub open spec fn ipa_start(
    log: Seq<TranscriptEvent>,
    g_factors: Seq<int>,
    h_factors: Seq<int>,
    g: Seq<GoutPoint>,
    h: Seq<GoutPoint>,
    a: Seq<int>,
    b: Seq<int>,
) -> IpaState {
    IpaState {
        log,
        l: Seq::empty(),
        r: Seq::empty(),
        g: scaled_points(g, g_factors),
        h: scaled_points(h, h_factors),
        a,
        b,
    }
}

fn scale_gouts(v: &[GoutAffine], f: &[Fp]) -> (r: Vec<GoutAffine>)
    requires
        v@.len() == f@.len(),
    ensures
        gouts(r@) == scaled_points(gouts(v@), fps(f@)),
        gouts_in_group(gouts(v@)) ==> gouts_in_group(gouts(r@)) && gout_logs(gouts(r@))
            == scaled_logs(gout_logs(gouts(v@)), fps(f@)),
{
    let mut out: Vec<GoutAffine> = Vec::with_capacity(v.len());
    let mut i: usize = 0;
    let ghost logs = gout_logs(gouts(v@));
    while i < v.len()
        invariant
            i <= v@.len(),
            v@.len() == f@.len(),
            out@.len() == i,
            logs == gout_logs(gouts(v@)),
            forall|k: int|
                0 <= k < i ==> (#[trigger] out@[k])@ == scaled_point(v@[k]@, f@[k]@),
            gouts_in_group(gouts(v@)) ==> forall|k: int|
                0 <= k < i ==> gout_is_pow(
                    (#[trigger] out@[k])@,
                    (logs[k] * f@[k]@) % fp_order(),
                ),
        decreases v@.len() - i,
    {
        // the factors of one side of a constraint-system proof are ones
        let x = if f[i].is_one() {
            v[i]
        } else {
            v[i].times(&f[i])
        };
        proof {
            if gouts_in_group(gouts(v@)) {
                assert(gout_in_group(gouts(v@)[i as int]));
                lemma_gout_eq(v@[i as int]@, v@[i as int]@);
                lemma_mod_reduced(logs[i as int], fp_order());
                let l = logs[i as int];
                assert(l * 1 == l);
            }
        }
        out.push(x);
        i = i + 1;
    }
    proof {
        assert(gouts(out@) =~= scaled_points(gouts(v@), fps(f@)));
        if gouts_in_group(gouts(v@)) {
            assert forall|k: int| 0 <= k < gouts(out@).len() implies #[trigger] gout_in_group(
                gouts(out@)[k],
            ) && gout_log(gouts(out@)[k]) == scaled_logs(logs, fps(f@))[k] by {
                lemma_gout_log(out@[k]@, (logs[k] * f@[k]@) % fp_order());
            }
            assert(gout_logs(gouts(out@)) =~= scaled_logs(logs, fps(f@)));
        }
    }
    out
}

/// The halves of a power of two above one.
proof fn lemma_half(n: nat)
    requires
        is_two_power(n),
        n > 1,
    ensures
        n % 2 == 0,
        is_two_power(n / 2),
{
    let k = choose|k: nat| n == #[trigger] pow2(k);
    if k == 0 {
        lemma_pow2(0);
        lemma_pow0(2);
    } else {
        lemma_pow2_unfold(k);
        assert(n / 2 == pow2((k - 1) as nat));
    }
}

/// The rounds of the argument: one, and the rest on vectors of half the length.
/// `None` if a challenge is zero.
fn fold_rounds(
    transcript: &mut Transcript,
    q: &GoutAffine,
    g: Vec<GoutAffine>,
    h: Vec<GoutAffine>,
    a: Vec<Fp>,
    b: Vec<Fp>,
    l_vec: &mut Vec<GoutAffine>,
    r_vec: &mut Vec<GoutAffine>,
) -> (res: Option<(Fp, Fp)>)
    requires
        is_two_power(a@.len()),
        a@.len() == b@.len() == g@.len() == h@.len(),
    ensures
        ({
            let st = IpaState {
                log: transcript_log(*old(transcript)),
                l: gouts(old(l_vec)@),
                r: gouts(old(r_vec)@),
                g: gouts(g@),
                h: gouts(h@),
                a: fps(a@),
                b: fps(b@),
            };
            match (res, ipa_run(q@, st)) {
                (Some((fa, fb)), Some(end)) => {
                    &&& end.log == transcript_log(*final(transcript))
                    &&& end.l == gouts(final(l_vec)@)
                    &&& end.r == gouts(final(r_vec)@)
                    &&& end.a == seq![fa@]
                    &&& end.b == seq![fb@]
                },
                (None, None) => true,
                _ => false,
            }
        }),
        res matches Some((fa, fb)) ==> {
            let k = old(l_vec)@.len() as int;
            let j = old(r_vec)@.len() as int;
            &&& final(l_vec)@.len() >= k
            &&& final(r_vec)@.len() >= j
            &&& final(l_vec)@.take(k) == old(l_vec)@
            &&& final(r_vec)@.take(j) == old(r_vec)@
            &&& rounds_done(
                transcript_log(*old(transcript)),
                transcript_log(*final(transcript)),
                q@,
                gouts(g@),
                gouts(h@),
                fps(a@),
                fps(b@),
                gouts(final(l_vec)@).skip(k),
                gouts(final(r_vec)@).skip(j),
                fa@,
                fb@,
            )
        },
    decreases a@.len(),
{
    let ghost log0 = transcript_log(*transcript);
    let ghost (l0, r0) = (l_vec@, r_vec@);
    let n: usize = a.len();
    if n <= 1 {
        proof {
            let k = choose|k: nat| a@.len() == #[trigger] pow2(k);
            lemma_pow2_pos(k);
            lemma_no_rounds(log0, q@, gouts(g@), gouts(h@), fps(a@), fps(b@));
            assert(gouts(l_vec@).skip(l0.len() as int) =~= Seq::<GoutPoint>::empty());
            assert(gouts(r_vec@).skip(r0.len() as int) =~= Seq::<GoutPoint>::empty());
            assert(l_vec@.take(l0.len() as int) =~= l0);
            assert(r_vec@.take(r0.len() as int) =~= r0);
            assert(fps(a@) =~= seq![a@[0]@]);
            assert(fps(b@) =~= seq![b@[0]@]);
        }
        return Some((a[0], b[0]));
    }
    let half: usize = n / 2;
    proof {
        lemma_half(n as nat);
    }
    let (a_lo, a_hi) = (slice_subrange(a.as_slice(), 0, half), slice_subrange(a.as_slice(), half, n));
    let (b_lo, b_hi) = (slice_subrange(b.as_slice(), 0, half), slice_subrange(b.as_slice(), half, n));
    let (g_lo, g_hi) = (slice_subrange(g.as_slice(), 0, half), slice_subrange(g.as_slice(), half, n));
    let (h_lo, h_hi) = (slice_subrange(h.as_slice(), 0, half), slice_subrange(h.as_slice(), half, n));
    let ghost (av, bv, gv, hv) = (fps(a@), fps(b@), gouts(g@), gouts(h@));
    proof {
        assert(fps(a_lo@) =~= lo(av));
        assert(fps(a_hi@) =~= hi(av));
        assert(fps(b_lo@) =~= lo(bv));
        assert(fps(b_hi@) =~= hi(bv));
        assert(gouts(g_lo@) =~= lo(gv));
        assert(gouts(g_hi@) =~= hi(gv));
        assert(gouts(h_lo@) =~= lo(hv));
        assert(gouts(h_hi@) =~= hi(hv));
    }
    let c_l = inner_product(a_lo, b_hi);
    let c_r = inner_product(a_hi, b_lo);
    // L = G_hi^{a_lo} · H_lo^{b_hi} · Q^{c_l}
    let l = round_product(g_hi, a_lo, h_lo, b_hi, q, &c_l);
    // R = G_lo^{a_hi} · H_hi^{b_lo} · Q^{c_r}
    let r = round_product(g_lo, a_hi, h_hi, b_lo, q, &c_r);
    transcript.append_gout("L".as_bytes(), &l);
    transcript.append_gout("R".as_bytes(), &r);
    l_vec.push(l);
    r_vec.push(r);
    let u = transcript.challenge_fp("u".as_bytes());
    let u_inv = match u.inverse() {
        Some(v) => v,
        None => {
            return None;
        },
    };
    proof {
        lemma_fp_order();
        lemma_mod_reduced(1, fp_order());
        lemma_inv_unique(u@, u_inv@);
        lemma_inv(u@);
        lemma_fp_range(u_inv);
        lemma_cong_small(inv(u@), u_inv@, fp_order());
    }
    let a_new = fold_fps(a.as_slice(), u, u_inv);
    let b_new = fold_fps(b.as_slice(), u_inv, u);
    let g_new = fold_gouts(g.as_slice(), u_inv, u);
    let h_new = fold_gouts(h.as_slice(), u, u_inv);
    proof {
        assert(a_new@.len() == fps(a_new@).len() == half);
        assert(b_new@.len() == fps(b_new@).len() == half);
        assert(g_new@.len() == gouts(g_new@).len() == half);
        assert(h_new@.len() == gouts(h_new@).len() == half);
        assert(gouts(l_vec@) =~= gouts(l0).push(l@));
        assert(gouts(r_vec@) =~= gouts(r0).push(r@));
    }
    let ghost (g2, h2) = (gouts(g_new@), gouts(h_new@));
    let ghost (l1, r1) = (l_vec@, r_vec@);
    let res = fold_rounds(transcript, q, g_new, h_new, a_new, b_new, l_vec, r_vec);
    proof {
        if res is Some {
            let (fa, fb) = ((res->Some_0).0@, (res->Some_0).1@);
            let k = l0.len() as int;
            let j = r0.len() as int;
            assert(l_vec@.take(k) =~= l_vec@.take(k + 1).take(k));
            assert(l1.take(k) =~= l0);
            assert(r_vec@.take(j) =~= r_vec@.take(j + 1).take(j));
            assert(r1.take(j) =~= r0);
            let (lr, rr) = (gouts(l_vec@).skip(k + 1), gouts(r_vec@).skip(j + 1));
            assert(l_vec@[k] == l1[k]) by {
                assert(l_vec@.take(k + 1)[k] == l_vec@[k]);
            }
            assert(r_vec@[j] == r1[j]) by {
                assert(r_vec@.take(j + 1)[j] == r_vec@[j]);
            }
            assert(gouts(l_vec@).skip(k) =~= seq![l@] + lr);
            assert(gouts(r_vec@).skip(j) =~= seq![r@] + rr);
            if gout_in_group(q@) && gouts_in_group(gv) && gouts_in_group(hv) {
                lemma_halves_in_group(gv);
                lemma_halves_in_group(hv);
                let ql = gout_log(q@);
                let (d1, d2) = (dot(lo(av), hi(bv)), dot(hi(av), lo(bv)));
                lemma_cong_mod(d1, fp_order());
                lemma_cong_mod(d2, fp_order());
                lemma_cong_mul(ql, ql, c_l@, d1, fp_order());
                lemma_cong_mul(ql, ql, c_r@, d2, fp_order());
                let e1 = dot(lo(av), hi(gout_logs(gv))) + dot(hi(bv), lo(gout_logs(hv)));
                let e2 = dot(hi(av), lo(gout_logs(gv))) + dot(lo(bv), hi(gout_logs(hv)));
                lemma_cong_add(e1, e1, ql * c_l@, ql * d1, fp_order());
                lemma_cong_add(e2, e2, ql * c_r@, ql * d2, fp_order());
            }
            lemma_round_before(
                log0,
                transcript_log(*transcript),
                q@,
                gv,
                hv,
                av,
                bv,
                lr,
                rr,
                fa,
                fb,
                l@,
                r@,
                u@,
                g2,
                h2,
            );
        }
    }
    res
}

/// The halves of points of the group, and their exponents.
proof fn lemma_halves_in_group(s: Seq<GoutPoint>)
    requires
        gouts_in_group(s),
    ensures
        gouts_in_group(lo(s)),
        gouts_in_group(hi(s)),
        gout_logs(lo(s)) == lo(gout_logs(s)),
        gout_logs(hi(s)) == hi(gout_logs(s)),
{
    let n = s.len() / 2;
    assert forall|i: int| 0 <= i < lo(s).len() implies #[trigger] gout_in_group(lo(s)[i]) by {
        assert(gout_in_group(s[i]));
    }
    assert forall|i: int| 0 <= i < hi(s).len() implies #[trigger] gout_in_group(hi(s)[i]) by {
        assert(gout_in_group(s[n + i]));
    }
    assert(gout_logs(lo(s)) =~= lo(gout_logs(s)));
    assert(gout_logs(hi(s)) =~= hi(gout_logs(s)));
}

/// The proof consists of what the rounds have sent and of the final scalars.
pub open spec fn ipa_proof_is(p: InnerProductProof, end: IpaState) -> bool {
    &&& gouts(p.l_vec@) == end.l
    &&& gouts(p.r_vec@) == end.r
    &&& seq![p.a@] == end.a
    &&& seq![p.b@] == end.b
}

/// `u²` for every challenge.
pub open spec fn squares(us: Seq<int>) -> Seq<int> {
    Seq::new(us.len(), |k: int| (us[k] * us[k]) % fp_order())
}

/// `u^{-2}` for every challenge; zero for zero.
pub open spec fn inverse_squares(us: Seq<int>) -> Seq<int> {
    Seq::new(us.len(), |k: int| (inv0(us[k]) * inv0(us[k])) % fp_order())
}

/// The message for a proof with `k` rounds that was expected to be one for vectors
/// of length `n`.
pub open spec fn length_mismatch(k: nat, n: nat) -> Seq<char> {
    "IPA length mismatch: "@ + decimal(k) + " L/R vs n="@ + decimal(n)
}

/// Whether `k` rounds are those for vectors of length `n`.
pub open spec fn rounds_fit(k: nat, n: nat) -> bool {
    k < 64 && n == pow2(k)
}

/// `∏ u_k^{-1}`, not reduced.
spec fn inv_prod(us: Seq<int>) -> int
    decreases us.len(),
{
    if us.len() == 0 {
        1
    } else {
        inv_prod(us.drop_last()) * inv0(us.last())
    }
}

/// `u^{-1}·u² = u`, also for zero.
proof fn lemma_inv0_square(u: int)
    requires
        u == 0 || invertible(u),
    ensures
        cong(inv0(u) * (u * u), u, fp_order()),
{
    lemma_fp_order();
    if u == 0 {
        assert(0int * (0int * 0int) == 0);
    } else {
        lemma_inv(u);
        let v = inv(u);
        assert(v * (u * u) == u * (u * v)) by (nonlinear_arith);
        lemma_cong_mul(u, u, u * v, 1, fp_order());
        assert(u * 1 == u);
    }
}

/// Appends `s[j]·u²` for every `j`: the next level of the weights.
fn double_weights(s: &mut Vec<Fp>, u_sq: Fp, Ghost(t): Ghost<Seq<int>>, Ghost(u): Ghost<int>, Ghost(
    c,
): Ghost<int>)
    requires
        u == 0 || invertible(u),
        u_sq@ == (u * u) % fp_order(),
        old(s)@.len() == t.len(),
        2 * t.len() <= usize::MAX,
        forall|j: int|
            0 <= j < t.len() ==> cong((#[trigger] old(s)@[j])@, t[j] * (c * inv0(u)), fp_order()),
    ensures
        final(s)@.len() == 2 * t.len(),
        forall|j: int|
            0 <= j < 2 * t.len() ==> cong(
                (#[trigger] final(s)@[j])@,
                (scale(t, inv0(u)) + scale(t, u))[j] * c,
                fp_order(),
            ),
{
    let k: usize = s.len();
    let mut j: usize = 0;
    let ghost s0 = s@;
    let ghost m = fp_order();
    proof {
        lemma_fp_order();
    }
    while j < k
        invariant
            j <= k,
            k == t.len(),
            2 * t.len() <= usize::MAX,
            s0.len() == k,
            s@.len() == k + j,
            m == fp_order(),
            m > 0,
            forall|i: int| 0 <= i < k ==> #[trigger] s@[i] == s0[i],
            forall|i: int|
                0 <= i < j ==> (#[trigger] s@[k + i])@ == (s0[i]@ * u_sq@) % m,
        decreases k - j,
    {
        let x = s[j] * u_sq;
        s.push(x);
        j = j + 1;
    }
    proof {
        let next = scale(t, inv0(u)) + scale(t, u);
        assert forall|i: int| 0 <= i < 2 * t.len() implies cong(
            (#[trigger] s@[i])@,
            next[i] * c,
            m,
        ) by {
            if i < k {
                let (x, v) = (t[i], inv0(u));
                assert(cong(s0[i]@, x * (c * v), m));
                assert(x * (c * v) == (x * v) * c) by (nonlinear_arith);
                lemma_cong_mod(x * v, m);
                lemma_cong_mul((x * v) % m, x * v, c, c, m);
            } else {
                let e = i - k;
                let (x, v) = (t[e], inv0(u));
                assert(s@[k + e]@ == (s0[e]@ * u_sq@) % m);
                assert(cong(s0[e]@, x * (c * v), m));
                lemma_cong_mod(u * u, m);
                lemma_cong_mul(s0[e]@, x * (c * v), u_sq@, u * u, m);
                lemma_cong_mod(s0[e]@ * u_sq@, m);
                let u2 = u * u;
                assert((x * (c * v)) * u2 == (x * c) * (v * u2)) by (nonlinear_arith);
                lemma_inv0_square(u);
                lemma_cong_mul(x * c, x * c, v * u2, u, m);
                assert((x * c) * u == (x * u) * c) by (nonlinear_arith);
                lemma_cong_mod(x * u, m);
                lemma_cong_mul((x * u) % m, x * u, c, c, m);
            }
        }
    }
}

/// `n == 2^k`?
fn is_power(n: usize, k: usize) -> (r: bool)
    ensures
        r == (n == pow2(k as nat)),
{
    let mut p: usize = 1;
    let mut i: usize = 0;
    proof {
        lemma_pow2(0);
        lemma_pow0(2);
    }
    while i < k
        invariant
            i <= k,
            p == pow2(i as nat),
        decreases k - i,
    {
        proof {
            lemma_pow2_unfold((i + 1) as nat);
            lemma_pow2_pos(i as nat);
        }
        if p > n / 2 {
            proof {
                assert(2 * p > n);
                if i + 1 < k {
                    vstd::arithmetic::power2::lemma_pow2_strictly_increases(
                        (i + 1) as nat,
                        k as nat,
                    );
                }
            }
            return false;
        }
        p = p * 2;
        i = i + 1;
    }
    p == n
}

impl InnerProductProof {
    /// The argument for `⟨a, b⟩` with bases `G` and `H`, whose lengths are one power
    /// of two, and `Q`; the bases are scaled by the factors first. `None` if a
    /// challenge is zero.
    pub fn try_create(
        transcript: &mut Transcript,
        q: &GoutAffine,
        g_factors: &[Fp],
        h_factors: &[Fp],
        g_vec: &[GoutAffine],
        h_vec: &[GoutAffine],
        a_vec: &[Fp],
        b_vec: &[Fp],
    ) -> (res: Option<InnerProductProof>)
        requires
            is_two_power(a_vec@.len()),
            b_vec@.len() == a_vec@.len(),
            g_vec@.len() == a_vec@.len(),
            h_vec@.len() == a_vec@.len(),
            g_factors@.len() == a_vec@.len(),
            h_factors@.len() == a_vec@.len(),
        ensures
            ({
                let st = ipa_start(
                    transcript_log(*old(transcript)),
                    fps(g_factors@),
                    fps(h_factors@),
                    gouts(g_vec@),
                    gouts(h_vec@),
                    fps(a_vec@),
                    fps(b_vec@),
                );
                match (res, ipa_run(q@, st)) {
                    (Some(p), Some(end)) => {
                        &&& ipa_proof_is(p, end)
                        &&& transcript_log(*final(transcript)) == end.log
                        &&& ipa_made(
                            p,
                            transcript_log(*old(transcript)),
                            transcript_log(*final(transcript)),
                            q@,
                            fps(g_factors@),
                            fps(h_factors@),
                            gouts(g_vec@),
                            gouts(h_vec@),
                            fps(a_vec@),
                            fps(b_vec@),
                        )
                    },
                    (None, None) => true,
                    _ => false,
                }
            }),
    {
        let g = scale_gouts(g_vec, g_factors);
        let h = scale_gouts(h_vec, h_factors);
        let a = copy_fps(a_vec);
        let b = copy_fps(b_vec);
        let mut l_vec: Vec<GoutAffine> = Vec::new();
        let mut r_vec: Vec<GoutAffine> = Vec::new();
        proof {
            assert(g@.len() == gouts(g@).len());
            assert(h@.len() == gouts(h@).len());
            assert(gouts(l_vec@) =~= Seq::<GoutPoint>::empty());
            assert(gouts(r_vec@) =~= Seq::<GoutPoint>::empty());
        }
        match fold_rounds(transcript, q, g, h, a, b, &mut l_vec, &mut r_vec) {
            Some((a, b)) => {
                proof {
                    assert(gouts(l_vec@).skip(0) =~= gouts(l_vec@));
                    assert(gouts(r_vec@).skip(0) =~= gouts(r_vec@));
                }
                Some(InnerProductProof { l_vec, r_vec, a, b })
            },
            None => None,
        }
    }

    /// [`InnerProductProof::try_create`] where it is known that no challenge is
    /// zero.
    pub fn create(
        transcript: &mut Transcript,
        q: &GoutAffine,
        g_factors: &[Fp],
        h_factors: &[Fp],
        g_vec: &[GoutAffine],
        h_vec: &[GoutAffine],
        a_vec: &[Fp],
        b_vec: &[Fp],
    ) -> (p: InnerProductProof)
        requires
            is_two_power(a_vec@.len()),
            b_vec@.len() == a_vec@.len(),
            g_vec@.len() == a_vec@.len(),
            h_vec@.len() == a_vec@.len(),
            g_factors@.len() == a_vec@.len(),
            h_factors@.len() == a_vec@.len(),
            ipa_run(
                q@,
                ipa_start(
                    transcript_log(*old(transcript)),
                    fps(g_factors@),
                    fps(h_factors@),
                    gouts(g_vec@),
                    gouts(h_vec@),
                    fps(a_vec@),
                    fps(b_vec@),
                ),
            ) is Some,
        ensures
            ({
                let end = ipa_run(
                    q@,
                    ipa_start(
                        transcript_log(*old(transcript)),
                        fps(g_factors@),
                        fps(h_factors@),
                        gouts(g_vec@),
                        gouts(h_vec@),
                        fps(a_vec@),
                        fps(b_vec@),
                    ),
                )->Some_0;
                &&& ipa_proof_is(p, end)
                &&& transcript_log(*final(transcript)) == end.log
            }),
            ipa_made(
                p,
                transcript_log(*old(transcript)),
                transcript_log(*final(transcript)),
                q@,
                fps(g_factors@),
                fps(h_factors@),
                gouts(g_vec@),
                gouts(h_vec@),
                fps(a_vec@),
                fps(b_vec@),
            ),
    {
        InnerProductProof::try_create(
            transcript,
            q,
            g_factors,
            h_factors,
            g_vec,
            h_vec,
            a_vec,
            b_vec,
        ).unwrap()
    }

    /// The verification scalars `(u_k², u_k^{-2}, s_j)` for a proof for vectors of
    /// length `n = 2^k`; `s_j = ∏ u_k^{±1}` is the weight of base `j`.
    pub fn verification_scalars(&self, n: usize, transcript: &mut Transcript) -> (res: Result<
        (Vec<Fp>, Vec<Fp>, Vec<Fp>),
        String,
    >)
        requires
            rounds_fit(self.l_vec@.len(), n as nat) ==> self.r_vec@.len() >= self.l_vec@.len(),
        ensures
            match res {
                Ok((u_sq, u_inv_sq, s)) => {
                    let us = ipa_challenges(
                        transcript_log(*old(transcript)),
                        gouts(self.l_vec@),
                        gouts(self.r_vec@),
                    );
                    &&& rounds_fit(self.l_vec@.len(), n as nat)
                    &&& us.len() == self.l_vec@.len()
                    &&& forall|k: int|
                        0 <= k < us.len() ==> #[trigger] us[k] == 0 || invertible(us[k])
                    &&& fps(u_sq@) == squares(us)
                    &&& fps(u_inv_sq@) == inverse_squares(us)
                    &&& fps(s@) == s_vec(us)
                    &&& transcript_log(*final(transcript)) == ipa_log(
                        transcript_log(*old(transcript)),
                        gouts(self.l_vec@),
                        gouts(self.r_vec@),
                    )
                },
                Err(e) => {
                    &&& !rounds_fit(self.l_vec@.len(), n as nat)
                    &&& e@ == length_mismatch(self.l_vec@.len(), n as nat)
                    &&& transcript_log(*final(transcript)) == transcript_log(*old(transcript))
                },
            },
    {
        let lg_n: usize = self.l_vec.len();
        if lg_n >= 64 || !is_power(n, lg_n) {
            let mut e = String::from_str("IPA length mismatch: ");
            append_decimal(&mut e, lg_n as u64);
            e.append(" L/R vs n=");
            append_decimal(&mut e, n as u64);
            return Err(e);
        }
        let ghost log0 = transcript_log(*transcript);
        let ghost (lv, rv) = (gouts(self.l_vec@), gouts(self.r_vec@));
        let ghost us = ipa_challenges(log0, lv, rv);
        let ghost m = fp_order();
        let mut u: Vec<Fp> = Vec::with_capacity(lg_n);
        let mut i: usize = 0;
        proof {
            lemma_fp_order();
            assert(lv.skip(0) =~= lv);
            assert(rv.skip(0) =~= rv);
            assert(fps(u@) + us =~= us);
        }
        while i < lg_n
            invariant
                i <= lg_n,
                lg_n == self.l_vec@.len(),
                self.r_vec@.len() >= lg_n,
                lv == gouts(self.l_vec@),
                rv == gouts(self.r_vec@),
                u@.len() == i,
                us == fps(u@) + ipa_challenges(
                    transcript_log(*transcript),
                    lv.skip(i as int),
                    rv.skip(i as int),
                ),
                ipa_log(log0, lv, rv) == ipa_log(
                    transcript_log(*transcript),
                    lv.skip(i as int),
                    rv.skip(i as int),
                ),
            decreases lg_n - i,
        {
            let ghost log1 = transcript_log(*transcript);
            let ghost u0 = u@;
            transcript.append_gout("L".as_bytes(), &self.l_vec[i]);
            transcript.append_gout("R".as_bytes(), &self.r_vec[i]);
            let c = transcript.challenge_fp("u".as_bytes());
            u.push(c);
            proof {
                let (ls, rs) = (lv.skip(i as int), rv.skip(i as int));
                assert(ls.drop_first() =~= lv.skip(i + 1));
                assert(rs.drop_first() =~= rv.skip(i + 1));
                let tail = ipa_challenges(
                    transcript_log(*transcript),
                    lv.skip(i + 1),
                    rv.skip(i + 1),
                );
                assert(ipa_challenges(log1, ls, rs) == seq![c@] + tail);
                assert(fps(u@) =~= fps(u0).push(c@));
                assert(fps(u@) + tail =~= fps(u0) + (seq![c@] + tail));
            }
            i = i + 1;
        }
        proof {
            assert(lv.skip(i as int) =~= Seq::<GoutPoint>::empty());
            assert(us =~= fps(u@));
        }
        let mut u_sq: Vec<Fp> = Vec::with_capacity(lg_n);
        let mut u_inv_sq: Vec<Fp> = Vec::with_capacity(lg_n);
        let mut s0 = Fp::one();
        let mut k: usize = 0;
        proof {
            assert(us.take(0) =~= Seq::<int>::empty());
        }
        while k < lg_n
            invariant
                k <= lg_n,
                lg_n == us.len(),
                us == fps(u@),
                m == fp_order(),
                m > 1,
                u_sq@.len() == k,
                u_inv_sq@.len() == k,
                forall|j: int|
                    0 <= j < k ==> (#[trigger] u_sq@[j])@ == (us[j] * us[j]) % m,
                forall|j: int|
                    0 <= j < k ==> (#[trigger] u_inv_sq@[j])@ == (inv0(us[j]) * inv0(us[j])) % m,
                forall|j: int| 0 <= j < k ==> #[trigger] us[j] == 0 || invertible(us[j]),
                cong(s0@, inv_prod(us.take(k as int)), m),
            decreases lg_n - k,
        {
            let x = u[k];
            let v = match x.inverse() {
                Some(v) => v,
                None => Fp::zero(),
            };
            proof {
                if x@ != 0 {
                    lemma_mod_reduced(1, m);
                    lemma_inv_unique(x@, v@);
                    lemma_inv(x@);
                    lemma_fp_range(v);
                    lemma_cong_small(inv(x@), v@, m);
                }
                assert(v@ == inv0(us[k as int]));
                assert(us.take(k + 1).drop_last() =~= us.take(k as int));
                lemma_cong_mul(s0@, inv_prod(us.take(k as int)), v@, v@, m);
                lemma_cong_mod(s0@ * v@, m);
            }
            u_sq.push(x.square());
            u_inv_sq.push(v.square());
            s0 = s0 * v;
            k = k + 1;
        }
        // s_0 = ∏ u_k^{-1}; the other weights by flipping signs, level by level.
        let mut s: Vec<Fp> = Vec::new();
        s.push(s0);
        let mut level: usize = 0;
        proof {
            lemma_pow2(0);
            lemma_pow0(2);
            assert(us.take(lg_n as int) =~= us);
            assert(us.skip(lg_n as int) =~= Seq::<int>::empty());
            let p = inv_prod(us);
            assert(1 * p == p);
        }
        while level < lg_n
            invariant
                level <= lg_n,
                lg_n == us.len(),
                n == pow2(lg_n as nat),
                m == fp_order(),
                m > 1,
                u_sq@.len() == lg_n,
                forall|j: int|
                    0 <= j < lg_n ==> (#[trigger] u_sq@[j])@ == (us[j] * us[j]) % m,
                forall|j: int| 0 <= j < lg_n ==> #[trigger] us[j] == 0 || invertible(us[j]),
                s@.len() == pow2(level as nat),
                s_vec(us.skip(lg_n - level)).len() == s@.len(),
                forall|j: int|
                    0 <= j < s@.len() ==> cong(
                        (#[trigger] s@[j])@,
                        s_vec(us.skip(lg_n - level))[j] * inv_prod(us.take(lg_n - level)),
                        m,
                    ),
            decreases lg_n - level,
        {
            let d: usize = lg_n - 1 - level;
            let ghost t = s_vec(us.skip(d + 1));
            let ghost c = inv_prod(us.take(d as int));
            proof {
                assert(us.take(d + 1).drop_last() =~= us.take(d as int));
                assert(us.take(d + 1).last() == us[d as int]);
                assert(us.skip(d as int).drop_first() =~= us.skip(d + 1));
                assert(us.skip(d as int)[0] == us[d as int]);
                lemma_pow2_unfold((level + 1) as nat);
                if level + 1 < lg_n {
                    vstd::arithmetic::power2::lemma_pow2_strictly_increases(
                        (level + 1) as nat,
                        lg_n as nat,
                    );
                }
            }
            double_weights(&mut s, u_sq[d], Ghost(t), Ghost(us[d as int]), Ghost(c));
            level = level + 1;
        }
        proof {
            assert(us.skip(0) =~= us);
            assert(us.take(0) =~= Seq::<int>::empty());
            lemma_s_vec_len(us);
            let sv = s_vec(us);
            lemma_s_vec_reduced(us);
            assert forall|j: int| 0 <= j < s@.len() implies (#[trigger] s@[j])@ == sv[j] by {
                let x = sv[j];
                assert(x * 1 == x);
                lemma_fp_range(s@[j]);
                lemma_cong_small(s@[j]@, x, m);
            }
            assert(fps(s@) =~= sv);
            assert(fps(u_sq@) =~= squares(us));
            assert(fps(u_inv_sq@) =~= inverse_squares(us));
        }
        Ok((u_sq, u_inv_sq, s))
    }
}

proof fn lemma_s_vec_reduced(us: Seq<int>)
    ensures
        forall|j: int| 0 <= j < s_vec(us).len() ==> 0 <= #[trigger] s_vec(us)[j] < fp_order(),
    decreases us.len(),
{
    lemma_fp_order();
    if us.len() > 0 {
        let t = s_vec(us.drop_first());
        assert forall|j: int| 0 <= j < s_vec(us).len() implies 0 <= #[trigger] s_vec(us)[j]
            < fp_order() by {
            if j < t.len() {
                lemma_cong_mod(t[j] * inv0(us[0]), fp_order());
            } else {
                lemma_cong_mod(t[j - t.len()] * us[0], fp_order());
            }
        }
    }
}

/// What a proof that was made says: the rounds are done, on the scaled bases.
pub open spec fn ipa_made(
    p: InnerProductProof,
    log: Seq<TranscriptEvent>,
    log2: Seq<TranscriptEvent>,
    q: GoutPoint,
    g_factors: Seq<int>,
    h_factors: Seq<int>,
    g: Seq<GoutPoint>,
    h: Seq<GoutPoint>,
    a: Seq<int>,
    b: Seq<int>,
) -> bool {
    let us = ipa_challenges(log, gouts(p.l_vec@), gouts(p.r_vec@));
    &&& p.l_vec@.len() == p.r_vec@.len()
    &&& a.len() == pow2(p.l_vec@.len())
    &&& us.len() == p.l_vec@.len()
    &&& log2 == ipa_log(log, gouts(p.l_vec@), gouts(p.r_vec@))
    &&& all_invertible(us)
    &&& gout_in_group(q) && gouts_in_group(g) && gouts_in_group(h) ==> {
        &&& gouts_in_group(gouts(p.l_vec@))
        &&& gouts_in_group(gouts(p.r_vec@))
        &&& cong(
            ipa_exponent(
                gout_log(q),
                scaled_logs(gout_logs(g), g_factors),
                scaled_logs(gout_logs(h), h_factors),
                a,
                b,
            ),
            ipa_folded_exponent(
                gout_log(q),
                scaled_logs(gout_logs(g), g_factors),
                scaled_logs(gout_logs(h), h_factors),
                us,
                gout_logs(gouts(p.l_vec@)),
                gout_logs(gouts(p.r_vec@)),
                p.a@,
                p.b@,
            ),
            fp_order(),
        )
    }
}

// ─── verification ───────────────────────────────────────────────────────────

/// The smaller of two lengths.
pub open spec fn shorter(a: nat, b: nat) -> nat {
    if a <= b {
        a
    } else {
        b
    }
}

/// `x·s_i·f_i`, as far as both lists go.
pub open spec fn weighted(s: Seq<int>, f: Seq<int>, x: int) -> Seq<int> {
    Seq::new(shorter(s.len(), f.len()), |i: int| (((x * s[i]) % fp_order()) * f[i]) % fp_order())
}

/// `-v`, element by element.
pub open spec fn negated(v: Seq<int>) -> Seq<int> {
    Seq::new(v.len(), |i: int| (-v[i]) % fp_order())
}

/// The bases of the verification product: `G`, `H`, `Q`, and the points of the
/// rounds.
pub open spec fn ipa_bases(
    g: Seq<GoutPoint>,
    h: Seq<GoutPoint>,
    q: GoutPoint,
    l: Seq<GoutPoint>,
    r: Seq<GoutPoint>,
) -> Seq<GoutPoint> {
    ((((g + h).push(q)) + l) + r)
}

/// The scalars of the verification product, in the order of [`ipa_bases`].
pub open spec fn ipa_scalars(
    us: Seq<int>,
    g_factors: Seq<int>,
    h_factors: Seq<int>,
    a: int,
    b: int,
) -> Seq<int> {
    ((((weighted(s_vec(us), g_factors, a) + weighted(s_vec(us).reverse(), h_factors, b)).push(
        (a * b) % fp_order(),
    )) + negated(squares(us))) + negated(inverse_squares(us)))
}

fn weigh_bases(s: &[Fp], f: &[Fp], x: Fp) -> (r: Vec<Fp>)
    ensures
        fps(r@) == weighted(fps(s@), fps(f@), x@),
{
    let mut out: Vec<Fp> = Vec::with_capacity(s.len());
    let mut i: usize = 0;
    while i < s.len() && i < f.len()
        invariant
            i <= s@.len(),
            i <= f@.len(),
            out@.len() == i,
            forall|k: int|
                0 <= k < i ==> (#[trigger] out@[k])@ == (((x@ * s@[k]@) % fp_order()) * f@[k]@)
                    % fp_order(),
        decreases s@.len() - i,
    {
        out.push(x * s[i] * f[i]);
        i = i + 1;
    }
    assert(fps(out@) =~= weighted(fps(s@), fps(f@), x@));
    out
}

fn negate_fps(v: &[Fp]) -> (r: Vec<Fp>)
    ensures
        fps(r@) == negated(fps(v@)),
{
    let mut out: Vec<Fp> = Vec::with_capacity(v.len());
    let mut i: usize = 0;
    while i < v.len()
        invariant
            i <= v@.len(),
            out@.len() == i,
            forall|k: int| 0 <= k < i ==> (#[trigger] out@[k])@ == (-v@[k]@) % fp_order(),
        decreases v@.len() - i,
    {
        out.push(v[i].negate());
        i = i + 1;
    }
    assert(fps(out@) =~= negated(fps(v@)));
    out
}

/// The elements of `v` in reverse order.
pub fn reversed(v: &[Fp]) -> (r: Vec<Fp>)
    ensures
        fps(r@) == fps(v@).reverse(),
{
    let mut out: Vec<Fp> = Vec::with_capacity(v.len());
    let mut i: usize = v.len();
    while i > 0
        invariant
            i <= v@.len(),
            out@.len() == v@.len() - i,
            forall|k: int| 0 <= k < out@.len() ==> #[trigger] out@[k] == v@[v@.len() - 1 - k],
        decreases i,
    {
        i = i - 1;
        out.push(v[i]);
    }
    assert(fps(out@) =~= fps(v@).reverse());
    out
}

/// A weighted sum of bases is the scalar times the weights at the scaled bases.
pub proof fn lemma_weighted_dot(g: Seq<int>, s: Seq<int>, f: Seq<int>, x: int)
    requires
        g.len() == s.len() == f.len(),
    ensures
        cong(dot(g, weighted(s, f, x)), x * dot(s, scaled_logs(g, f)), fp_order()),
{
    let m = fp_order();
    lemma_fp_order();
    let n = g.len();
    let (w, sg) = (weighted(s, f, x), scaled_logs(g, f));
    let lhs = |i: int| g[i] * w[i];
    let mid = |i: int| s[i] * sg[i];
    let rhs = |i: int| x * mid(i);
    assert forall|i: int| 0 <= i < n implies cong(#[trigger] lhs(i), rhs(i), m) by {
        let (gi, si, fi) = (g[i], s[i], f[i]);
        lemma_cong_mod(x * si, m);
        lemma_cong_mul((x * si) % m, x * si, fi, fi, m);
        lemma_cong_mod(((x * si) % m) * fi, m);
        lemma_cong_mul(gi, gi, w[i], (x * si) * fi, m);
        lemma_cong_mod(gi * fi, m);
        lemma_cong_mul(si, si, sg[i], gi * fi, m);
        lemma_cong_mul(x, x, si * sg[i], si * (gi * fi), m);
        assert(gi * ((x * si) * fi) == x * (si * (gi * fi))) by (nonlinear_arith);
    }
    lemma_sigma_cong(n, lhs, rhs, m);
    lemma_sigma_scale(n, x, mid);
    lemma_sigma_eq(n, lhs, |i: int| g[i] * w[i]);
    lemma_sigma_eq(n, mid, |i: int| s[i] * sg[i]);
}

/// What the rounds have sent, as inner products.
pub proof fn lemma_rounds_dot(us: Seq<int>, ls: Seq<int>, rs: Seq<int>)
    requires
        us.len() == ls.len() == rs.len(),
    ensures
        cong(
            dot(ls, squares(us)) + dot(rs, inverse_squares(us)),
            rounds_sum(us, ls, rs),
            fp_order(),
        ),
    decreases us.len(),
{
    let m = fp_order();
    lemma_fp_order();
    let n = us.len();
    let (sq, isq) = (squares(us), inverse_squares(us));
    if n > 0 {
        let (u2, l2, r2) = (us.drop_first(), ls.drop_first(), rs.drop_first());
        lemma_rounds_dot(u2, l2, r2);
        let f = |i: int| ls[i] * sq[i];
        let g = |i: int| rs[i] * isq[i];
        crate::algebra::lemma_sigma_first(n, f);
        crate::algebra::lemma_sigma_first(n, g);
        let k = (n - 1) as nat;
        lemma_sigma_eq(k, |i: int| f(i + 1), |i: int| l2[i] * squares(u2)[i]);
        lemma_sigma_eq(k, |i: int| g(i + 1), |i: int| r2[i] * inverse_squares(u2)[i]);
        let (a, b) = (us[0] * us[0], inv0(us[0]) * inv0(us[0]));
        let (l, r) = (ls[0], rs[0]);
        lemma_cong_mod(a, m);
        lemma_cong_mod(b, m);
        lemma_cong_mul(l, l, a % m, a, m);
        lemma_cong_mul(r, r, b % m, b, m);
        assert(l * a == a * l) by (nonlinear_arith);
        assert(r * b == b * r) by (nonlinear_arith);
        lemma_cong_add(l * (a % m), a * l, r * (b % m), b * r, m);
        lemma_cong_add(
            l * (a % m) + r * (b % m),
            a * l + b * r,
            dot(l2, squares(u2)) + dot(r2, inverse_squares(u2)),
            rounds_sum(u2, l2, r2),
            m,
        );
    }
}

pub proof fn lemma_negated_dot(a: Seq<int>, v: Seq<int>)
    requires
        a.len() == v.len(),
    ensures
        cong(dot(a, negated(v)), -dot(a, v), fp_order()),
{
    let m = fp_order();
    lemma_fp_order();
    let n = a.len();
    let nv = negated(v);
    let f = |i: int| a[i] * nv[i];
    let p = |i: int| a[i] * v[i];
    let g = |i: int| (-1) * p(i);
    assert forall|i: int| 0 <= i < n implies cong(#[trigger] f(i), g(i), m) by {
        let (x, y) = (a[i], v[i]);
        lemma_cong_mod(-y, m);
        lemma_cong_mul(x, x, (-y) % m, -y, m);
        assert(x * (-y) == (-1) * (x * y)) by (nonlinear_arith);
    }
    lemma_sigma_cong(n, f, g, m);
    lemma_sigma_scale(n, -1, p);
    lemma_sigma_eq(n, f, |i: int| a[i] * nv[i]);
    lemma_sigma_eq(n, p, |i: int| a[i] * v[i]);
    let s = sigma(n, p);
    assert((-1) * s == -s) by (nonlinear_arith);
}

/// The exponent of the verification product.
proof fn lemma_check_exponent(
    g: Seq<int>,
    h: Seq<int>,
    q: int,
    l: Seq<int>,
    r: Seq<int>,
    us: Seq<int>,
    g_factors: Seq<int>,
    h_factors: Seq<int>,
    a: int,
    b: int,
)
    requires
        g.len() == h.len() == g_factors.len() == h_factors.len() == pow2(us.len()),
        l.len() == r.len() == us.len(),
    ensures
        cong(
            dot(((((g + h).push(q)) + l) + r), ipa_scalars(us, g_factors, h_factors, a, b)),
            ipa_folded_exponent(
                q,
                scaled_logs(g, g_factors),
                scaled_logs(h, h_factors),
                us,
                l,
                r,
                a,
                b,
            ),
            fp_order(),
        ),
{
    let m = fp_order();
    lemma_fp_order();
    lemma_s_vec_len(us);
    let s = s_vec(us);
    let (wg, wh) = (weighted(s, g_factors, a), weighted(s.reverse(), h_factors, b));
    let (ns, ni) = (negated(squares(us)), negated(inverse_squares(us)));
    let ab = (a * b) % m;
    crate::algebra::lemma_dot_concat(g, wg, h, wh);
    crate::algebra::lemma_dot_push(g + h, wg + wh, q, ab);
    crate::algebra::lemma_dot_concat((g + h).push(q), (wg + wh).push(ab), l, ns);
    crate::algebra::lemma_dot_concat(
        ((g + h).push(q)) + l,
        ((wg + wh).push(ab)) + ns,
        r,
        ni,
    );
    lemma_weighted_dot(g, s, g_factors, a);
    lemma_weighted_dot(h, s.reverse(), h_factors, b);
    lemma_cong_mod(a * b, m);
    lemma_cong_mul(q, q, ab, a * b, m);
    lemma_negated_dot(l, squares(us));
    lemma_negated_dot(r, inverse_squares(us));
    lemma_rounds_dot(us, l, r);
    let (eg, eh) = (a * dot(s, scaled_logs(g, g_factors)), b * dot(
        s.reverse(),
        scaled_logs(h, h_factors),
    ));
    let (dl, dr) = (dot(l, squares(us)), dot(r, inverse_squares(us)));
    lemma_cong_add(dot(g, wg), eg, dot(h, wh), eh, m);
    lemma_cong_add(dot(g, wg) + dot(h, wh), eg + eh, q * ab, q * (a * b), m);
    lemma_cong_add(dot(l, ns), -dl, dot(r, ni), -dr, m);
    lemma_cong_sub(0, 0, dl + dr, rounds_sum(us, l, r), m);
    lemma_cong_add(
        dot(g, wg) + dot(h, wh) + q * ab,
        eg + eh + q * (a * b),
        dot(l, ns) + dot(r, ni),
        0 - rounds_sum(us, l, r),
        m,
    );
}

proof fn lemma_bases_logs(
    g: Seq<GoutPoint>,
    h: Seq<GoutPoint>,
    q: GoutPoint,
    l: Seq<GoutPoint>,
    r: Seq<GoutPoint>,
)
    ensures
        gout_logs(ipa_bases(g, h, q, l, r)) == ((((gout_logs(g) + gout_logs(h)).push(gout_log(q)))
            + gout_logs(l)) + gout_logs(r)),
        gouts_in_group(g) && gouts_in_group(h) && gout_in_group(q) && gouts_in_group(l)
            && gouts_in_group(r) ==> gouts_in_group(ipa_bases(g, h, q, l, r)),
{
    let b = ipa_bases(g, h, q, l, r);
    assert(gout_logs(b) =~= ((((gout_logs(g) + gout_logs(h)).push(gout_log(q))) + gout_logs(l))
        + gout_logs(r)));
    if gouts_in_group(g) && gouts_in_group(h) && gout_in_group(q) && gouts_in_group(l)
        && gouts_in_group(r) {
        let (n1, n2, n4) = (g.len(), g.len() + h.len(), g.len() + h.len() + 1 + l.len());
        assert forall|i: int| 0 <= i < b.len() implies #[trigger] gout_in_group(b[i]) by {
            if i < n1 {
                assert(gout_in_group(g[i]));
            } else if i < n2 {
                assert(gout_in_group(h[i - n1]));
            } else if i == n2 {
            } else if i < n4 {
                assert(gout_in_group(l[i - n2 - 1]));
            } else {
                assert(gout_in_group(r[i - n4]));
            }
        }
    }
}

/// The lists that [`InnerProductProof::verify`] is given make up a product: there are as many
/// bases as scalars. Factors behind the first `n` are not looked at.
pub open spec fn ipa_lengths_fit(
    pr: InnerProductProof,
    n: nat,
    g_factors: nat,
    h_factors: nat,
    g: nat,
    h: nat,
) -> bool {
    let k = pr.l_vec@.len();
    rounds_fit(k, n) ==> {
        &&& pr.r_vec@.len() >= k
        &&& g + h + pr.r_vec@.len() == shorter(n, g_factors) + shorter(n, h_factors) + k
    }
}

/// What is known of a result of [`InnerProductProof::verify`].
pub open spec fn ipa_verified(
    pr: InnerProductProof,
    log: Seq<TranscriptEvent>,
    n: nat,
    g_factors: Seq<int>,
    h_factors: Seq<int>,
    p: GoutPoint,
    q: GoutPoint,
    g: Seq<GoutPoint>,
    h: Seq<GoutPoint>,
    res: Result<(), String>,
) -> bool {
    let us = ipa_challenges(log, gouts(pr.l_vec@), gouts(pr.r_vec@));
    let bases = ipa_bases(g, h, q, gouts(pr.l_vec@), gouts(pr.r_vec@));
    if !rounds_fit(pr.l_vec@.len(), n) {
        res matches Err(e) && e@ == length_mismatch(pr.l_vec@.len(), n)
    } else {
        &&& res is Ok <==> gout_msm(
            bases,
            ipa_scalars(us, g_factors, h_factors, pr.a@, pr.b@),
        ) == p
        &&& res matches Err(e) ==> e@ == "IPA verification failed"@
        &&& g.len() == n && h.len() == n && g_factors.len() >= n && h_factors.len() >= n
            && gout_in_group(p) && gouts_in_group(bases) ==> (res is Ok <==> cong(
            gout_log(p),
            ipa_folded_exponent(
                gout_log(q),
                scaled_logs(gout_logs(g), g_factors),
                scaled_logs(gout_logs(h), h_factors),
                us,
                gout_logs(gouts(pr.l_vec@)),
                gout_logs(gouts(pr.r_vec@)),
                pr.a@,
                pr.b@,
            ),
            fp_order(),
        ))
    }
}

impl InnerProductProof {
    /// Verifies `P == G^a · H^b · Q^{<a,b>}` for the vectors `a`, `b` that the proof
    /// is about.
    ///
    /// The proof is accepted exactly where the verification product is `P`. For
    /// points of the prime-order group this says that the exponent of `P` is that
    /// of the folded statement.
    pub fn verify(
        &self,
        n: usize,
        transcript: &mut Transcript,
        g_factors: &[Fp],
        h_factors: &[Fp],
        p: &GoutAffine,
        q: &GoutAffine,
        g_vec: &[GoutAffine],
        h_vec: &[GoutAffine],
    ) -> (res: Result<(), String>)
        requires
            ipa_lengths_fit(
                *self,
                n as nat,
                g_factors@.len(),
                h_factors@.len(),
                g_vec@.len(),
                h_vec@.len(),
            ),
        ensures
            ipa_verified(
                *self,
                transcript_log(*old(transcript)),
                n as nat,
                fps(g_factors@),
                fps(h_factors@),
                p@,
                q@,
                gouts(g_vec@),
                gouts(h_vec@),
                res,
            ),
            transcript_log(*final(transcript)) == (if rounds_fit(self.l_vec@.len(), n as nat) {
                ipa_log(transcript_log(*old(transcript)), gouts(self.l_vec@), gouts(self.r_vec@))
            } else {
                transcript_log(*old(transcript))
            }),
    {
        let ghost us = ipa_challenges(
            transcript_log(*transcript),
            gouts(self.l_vec@),
            gouts(self.r_vec@),
        );
        let (u_sq, u_inv_sq, s) = match self.verification_scalars(n, transcript) {
            Ok(t) => t,
            Err(e) => {
                return Err(e);
            },
        };
        proof {
            lemma_s_vec_len(us);
            assert(fps(s@).len() == s@.len());
        }
        let s_inv = reversed(s.as_slice());  // s_inv[i] = 1/s[i], by symmetry of the weights
        assert(s_inv@.len() == fps(s_inv@).len());
        let g_scalars = weigh_bases(s.as_slice(), g_factors, self.a);
        let h_scalars = weigh_bases(s_inv.as_slice(), h_factors, self.b);
        let neg_u_sq = negate_fps(u_sq.as_slice());
        let neg_u_inv_sq = negate_fps(u_inv_sq.as_slice());
        let mut bases: Vec<GoutAffine> = Vec::new();
        let mut scalars: Vec<Fp> = Vec::new();
        extend_gouts(&mut bases, g_vec);
        extend_fps(&mut scalars, g_scalars.as_slice());
        extend_gouts(&mut bases, h_vec);
        extend_fps(&mut scalars, h_scalars.as_slice());
        bases.push(*q);
        let ab = self.a * self.b;
        scalars.push(ab);
        extend_gouts(&mut bases, self.l_vec.as_slice());
        extend_fps(&mut scalars, neg_u_sq.as_slice());
        extend_gouts(&mut bases, self.r_vec.as_slice());
        extend_fps(&mut scalars, neg_u_inv_sq.as_slice());
        let ghost (gp, hp, lp, rp) = (
            gouts(g_vec@),
            gouts(h_vec@),
            gouts(self.l_vec@),
            gouts(self.r_vec@),
        );
        let ghost bv = ipa_bases(gp, hp, q@, lp, rp);
        let ghost sv = ipa_scalars(us, fps(g_factors@), fps(h_factors@), self.a@, self.b@);
        proof {
            assert(fps(g_scalars@).len() == g_scalars@.len());
            assert(fps(h_scalars@).len() == h_scalars@.len());
            assert(fps(neg_u_sq@).len() == neg_u_sq@.len());
            assert(fps(neg_u_inv_sq@).len() == neg_u_inv_sq@.len());
            assert(gouts(bases@) =~= bv);
            assert(fps(scalars@) =~= ((((fps(g_scalars@) + fps(h_scalars@)).push(ab@)) + fps(
                neg_u_sq@,
            )) + fps(neg_u_inv_sq@)));
        }
        let expected = GoutAffine::msm(bases.as_slice(), scalars.as_slice());
        proof {
            if g_vec@.len() == n && h_vec@.len() == n && g_factors@.len() >= n && h_factors@.len()
                >= n && gout_in_group(p@) && gouts_in_group(bv) {
                let (fg, fh) = (fps(g_factors@).take(n as int), fps(h_factors@).take(n as int));
                assert(weighted(fps(s@), fg, self.a@) =~= weighted(
                    fps(s@),
                    fps(g_factors@),
                    self.a@,
                ));
                assert(weighted(fps(s@).reverse(), fh, self.b@) =~= weighted(
                    fps(s@).reverse(),
                    fps(h_factors@),
                    self.b@,
                ));
                assert(scaled_logs(gout_logs(gp), fg) =~= scaled_logs(
                    gout_logs(gp),
                    fps(g_factors@),
                ));
                assert(scaled_logs(gout_logs(hp), fh) =~= scaled_logs(
                    gout_logs(hp),
                    fps(h_factors@),
                ));
                lemma_bases_logs(gp, hp, q@, lp, rp);
                lemma_check_exponent(
                    gout_logs(gp),
                    gout_logs(hp),
                    gout_log(q@),
                    gout_logs(lp),
                    gout_logs(rp),
                    us,
                    fg,
                    fh,
                    self.a@,
                    self.b@,
                );
                let e = dot(gout_logs(bv), sv);
                lemma_fp_order();
                lemma_gout_log(expected@, e % fp_order());
                lemma_gout_eq(p@, expected@);
                lemma_cong_mod(e, fp_order());
                lemma_mod_reduced(gout_log(p@), fp_order());
            }
        }
        if expected == *p {
            Ok(())
        } else {
            Err(String::from_str("IPA verification failed"))
        }
    }
}

/// The argument round trip. A proof that was made for vectors `a` and `b` is accepted, from
/// an equal transcript, for exactly one point `P` of the group:
/// `G^a · H^b · Q^{<a,b>}` over the scaled bases. It has as many rounds as the length
/// has bits less one; without a round it holds the vectors themselves.
pub proof fn law_ipa_round_trip(
    made: InnerProductProof,
    log: Seq<TranscriptEvent>,
    log2: Seq<TranscriptEvent>,
    n: nat,
    p: GoutPoint,
    q: GoutPoint,
    g_factors: Seq<int>,
    h_factors: Seq<int>,
    g: Seq<GoutPoint>,
    h: Seq<GoutPoint>,
    a: Seq<int>,
    b: Seq<int>,
    res: Result<(), String>,
)
    requires
        a.len() == n <= usize::MAX,
        b.len() == n,
        g.len() == n,
        h.len() == n,
        g_factors.len() == n,
        h_factors.len() == n,
        ipa_run(q, ipa_start(log, g_factors, h_factors, g, h, a, b)) matches Some(end)
            && ipa_proof_is(made, end),
        ipa_made(made, log, log2, q, g_factors, h_factors, g, h, a, b),
        ipa_verified(made, log, n, g_factors, h_factors, p, q, g, h, res),
        gout_in_group(p),
        gout_in_group(q),
        gouts_in_group(g),
        gouts_in_group(h),
    ensures
        made.l_vec@.len() == made.r_vec@.len(),
        n == pow2(made.l_vec@.len()),
        ({
            let e = ipa_exponent(
                gout_log(q),
                scaled_logs(gout_logs(g), g_factors),
                scaled_logs(gout_logs(h), h_factors),
                a,
                b,
            );
            res is Ok <==> p == gout_pow(e % fp_order())
        }),
        n == 1 ==> made.a@ == a[0] && made.b@ == b[0],
{
    let m = fp_order();
    lemma_fp_order();
    let e = ipa_exponent(
        gout_log(q),
        scaled_logs(gout_logs(g), g_factors),
        scaled_logs(gout_logs(h), h_factors),
        a,
        b,
    );
    let k = made.l_vec@.len();
    assert(k < 64) by {
        if k >= 64 {
            vstd::arithmetic::power2::lemma2_to64();
            if k > 64 {
                vstd::arithmetic::power2::lemma_pow2_strictly_increases(64, k);
            }
        }
    }
    lemma_bases_logs(g, h, q, gouts(made.l_vec@), gouts(made.r_vec@));
    lemma_gout_eq(p, p);
    lemma_cong_mod(e, m);
    if cong(gout_log(p), e, m) {
        lemma_cong_small(gout_log(p), e % m, m);
    }
    if n == 1 {
        let st = ipa_start(log, g_factors, h_factors, g, h, a, b);
        assert(seq![made.a@][0] == st.a[0]);
        assert(seq![made.b@][0] == st.b[0]);
    }
}

} // verus!
