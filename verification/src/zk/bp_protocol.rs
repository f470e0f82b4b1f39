//! The proof system as mathematics: the messages of a proof, the challenges, what an
//! honest prover sends, and what the verifier checks.
use crate::algebra::{cong, dot};
use crate::curves::{gout_logs, gout_msm, gout_scale, gouts, GoutPoint};
use crate::field::fp_order;
use crate::lagrange::inv;
use crate::transcript::{
    ev_bytes, ev_challenge, ev_field, ev_gout, ev_u64, fp_challenge, transcript_challenge,
    TranscriptEvent,
};
use crate::zk::bp_algebra::{delta, g_scalar, h_scalar, l_at, pad, r_at, t_sum, Vectors};
use crate::zk::generators::{pedersen, BpGens};
use crate::zk::ipa::{
    inverse_squares, ipa_challenges, ipa_log, ipa_run, ipa_start, is_two_power, s_vec, squares,
};
use crate::zk::r1cs::{flat, Circuit, Lc, Values, Variable};
use vstd::arithmetic::power::{lemma_pow0, pow};
use vstd::arithmetic::power2::{lemma_pow2, lemma_pow2_unfold, pow2};
use vstd::prelude::*;
use vstd::string::StringSliceAdditionalSpecFns;

verus! {

// ─── messages and challenges ────────────────────────────────────────────────

/// The points and scalars of a proof.
#[verifier::ext_equal]
pub struct ProofView {
    pub a_i: GoutPoint,
    pub a_o: GoutPoint,
    pub s: GoutPoint,
    pub t_1: GoutPoint,
    pub t_3: GoutPoint,
    pub t_4: GoutPoint,
    pub t_5: GoutPoint,
    pub t_6: GoutPoint,
    pub t_x: int,
    pub t_x_blinding: int,
    pub e_blinding: int,
    pub l: Seq<GoutPoint>,
    pub r: Seq<GoutPoint>,
    pub a: int,
    pub b: int,
}

/// The transcript after the commitments to the wires.
pub open spec fn commit_log(
    log: Seq<TranscriptEvent>,
    m: nat,
    a_i: GoutPoint,
    a_o: GoutPoint,
    s: GoutPoint,
) -> Seq<TranscriptEvent> {
    log.push(ev_u64("m".spec_bytes(), m as u64)).push(ev_gout("A_I".spec_bytes(), a_i)).push(
        ev_gout("A_O".spec_bytes(), a_o),
    ).push(ev_gout("S".spec_bytes(), s))
}

/// The challenge `y`.
pub open spec fn y_of(log: Seq<TranscriptEvent>) -> int {
    fp_challenge(log, "y".spec_bytes())
}

/// The challenge `z`.
pub open spec fn z_of(log: Seq<TranscriptEvent>) -> int {
    fp_challenge(log.push(ev_challenge("y".spec_bytes())), "z".spec_bytes())
}

/// The transcript after the commitments to the coefficients of `t(x)`.
pub open spec fn poly_log(
    log: Seq<TranscriptEvent>,
    t_1: GoutPoint,
    t_3: GoutPoint,
    t_4: GoutPoint,
    t_5: GoutPoint,
    t_6: GoutPoint,
) -> Seq<TranscriptEvent> {
    log.push(ev_challenge("y".spec_bytes())).push(ev_challenge("z".spec_bytes())).push(
        ev_gout("T_1".spec_bytes(), t_1),
    ).push(ev_gout("T_3".spec_bytes(), t_3)).push(ev_gout("T_4".spec_bytes(), t_4)).push(
        ev_gout("T_5".spec_bytes(), t_5),
    ).push(ev_gout("T_6".spec_bytes(), t_6))
}

/// The challenge `x`.
pub open spec fn x_of(log: Seq<TranscriptEvent>) -> int {
    fp_challenge(log.push(ev_challenge("u".spec_bytes())), "x".spec_bytes())
}

/// The transcript after the openings.
pub open spec fn open_log(
    log: Seq<TranscriptEvent>,
    t_x: int,
    t_x_blinding: int,
    e_blinding: int,
) -> Seq<TranscriptEvent> {
    log.push(ev_challenge("u".spec_bytes())).push(ev_challenge("x".spec_bytes())).push(
        ev_field("t_x".spec_bytes(), t_x),
    ).push(ev_field("t_x_blinding".spec_bytes(), t_x_blinding)).push(
        ev_field("e_blinding".spec_bytes(), e_blinding),
    )
}

/// The challenge `w`, which the inner product is bound with.
pub open spec fn w_of(log: Seq<TranscriptEvent>) -> int {
    fp_challenge(log, "w".spec_bytes())
}

/// The transcript at the beginning of the inner-product argument.
pub open spec fn rounds_start(log: Seq<TranscriptEvent>) -> Seq<TranscriptEvent> {
    log.push(ev_challenge("w".spec_bytes()))
}

// ─── padding to a power of two ──────────────────────────────────────────────

/// `p` doubled until it is at least `n`.
pub open spec fn doubled_to(p: nat, n: nat) -> nat
    decreases
            if p >= n {
                0
            } else {
                n - p
            },
{
    if p >= n || p == 0 {
        p
    } else {
        doubled_to(p + p, n)
    }
}

/// The least power of two that is at least `n`.
pub open spec fn pad_len(n: nat) -> nat {
    doubled_to(1, n)
}

proof fn lemma_doubled_to(k: nat, n: nat)
    ensures
        is_two_power(doubled_to(pow2(k), n)),
        doubled_to(pow2(k), n) >= n,
        k > 0 && pow2((k - 1) as nat) < n ==> forall|j: nat|
            #[trigger] pow2(j) >= n ==> doubled_to(pow2(k), n) <= pow2(j),
    decreases
            if pow2(k) >= n {
                0
            } else {
                n - pow2(k)
            },
{
    lemma_pow2_pos_all(k);
    let p = pow2(k);
    if p >= n {
        if k > 0 && pow2((k - 1) as nat) < n {
            assert forall|j: nat| #[trigger] pow2(j) >= n implies p <= pow2(j) by {
                if j < k {
                    lemma_pow2_le(j, (k - 1) as nat);
                }
                lemma_pow2_le(k, if j < k { k } else { j });
            }
        }
    } else {
        lemma_pow2_unfold(k + 1);
        assert(pow2(k + 1) == p + p);
        lemma_doubled_to(k + 1, n);
    }
}

proof fn lemma_pow2_pos_all(k: nat)
    ensures
        pow2(k) > 0,
{
    vstd::arithmetic::power2::lemma_pow2_pos(k);
}

proof fn lemma_pow2_le(a: nat, b: nat)
    requires
        a <= b,
    ensures
        pow2(a) <= pow2(b),
    decreases b - a,
{
    if a < b {
        lemma_pow2_le(a, (b - 1) as nat);
        lemma_pow2_unfold(b);
        lemma_pow2_pos_all((b - 1) as nat);
    }
}

/// [`pad_len`] is a power of two, it is at least `n`, and no smaller power of two
/// is.
pub proof fn lemma_pad_len(n: nat)
    ensures
        is_two_power(pad_len(n)),
        pad_len(n) >= n,
        pad_len(n) >= 1,
        forall|j: nat| #[trigger] pow2(j) >= n ==> pad_len(n) <= pow2(j),
{
    lemma_pow2(0);
    lemma_pow0(2);
    assert(pow2(0) == 1);
    lemma_doubled_to(0, n);
    assert forall|j: nat| #[trigger] pow2(j) >= n implies pad_len(n) <= pow2(j) by {
        lemma_pow2_pos_all(j);
        if n > 1 {
            lemma_pow2_unfold(1);
            lemma_doubled_to(1, n);
            assert(pow2((1nat - 1) as nat) == 1);
        }
    }
    assert(pad_len(n) >= 1) by {
        if n > 1 {
        } else {
            assert(doubled_to(1, n) == 1);
        }
    }
}

// ─── the honest prover ──────────────────────────────────────────────────────

/// The blinding factors of a proof.
pub struct BlindingsView {
    pub i: int,
    pub o: int,
    pub s: int,
    pub s_l: Seq<int>,
    pub s_r: Seq<int>,
    pub t_1: int,
    pub t_3: int,
    pub t_4: int,
    pub t_5: int,
    pub t_6: int,
}

/// `1, y, y², …`, reduced.
pub open spec fn power_seq(y: int, n: nat) -> Seq<int> {
    Seq::new(n, |i: int| pow(y, i as nat) % fp_order())
}

/// The flattened coefficients of the committed values, which stand on the other
/// side of the equations.
pub open spec fn w_v(constraints: Seq<Lc>, m: nat, z: int) -> Seq<int> {
    Seq::new(m, |j: int| (-flat(constraints, Variable::Committed(j as usize), z)) % fp_order())
}

/// The flattened constant, which stands on the other side of the equations.
pub open spec fn w_c(constraints: Seq<Lc>, z: int) -> int {
    (-flat(constraints, Variable::One, z)) % fp_order()
}

/// The vectors that the verifier knows too: the flattened constraints and the
/// powers of `y`.
pub open spec fn public_vectors(constraints: Seq<Lc>, n: nat, y: int, z: int) -> Vectors {
    Vectors {
        a_l: Seq::empty(),
        a_r: Seq::empty(),
        a_o: Seq::empty(),
        s_l: Seq::empty(),
        s_r: Seq::empty(),
        w_l: Seq::new(
            n,
            |i: int| flat(constraints, Variable::MultiplierLeft(i as usize), z) % fp_order(),
        ),
        w_r: Seq::new(
            n,
            |i: int| flat(constraints, Variable::MultiplierRight(i as usize), z) % fp_order(),
        ),
        w_o: Seq::new(
            n,
            |i: int| flat(constraints, Variable::MultiplierOutput(i as usize), z) % fp_order(),
        ),
        y: power_seq(y, n),
        v: power_seq(inv(y), n),
    }
}

/// All vectors of the prover.
pub open spec fn prover_vectors(
    c: Circuit,
    w: Values,
    bl: BlindingsView,
    n: nat,
    y: int,
    z: int,
) -> Vectors {
    Vectors {
        a_l: pad(w.a_l, n),
        a_r: pad(w.a_r, n),
        a_o: pad(w.a_o, n),
        s_l: bl.s_l,
        s_r: bl.s_r,
        ..public_vectors(c.constraints, n, y, z)
    }
}

/// The vector `l(x)`.
pub open spec fn l_seq(k: Vectors, n: nat, x: int) -> Seq<int> {
    Seq::new(n, |i: int| l_at(k, x, i) % fp_order())
}

/// The vector `r(x)`.
pub open spec fn r_seq(k: Vectors, n: nat, x: int) -> Seq<int> {
    Seq::new(n, |i: int| r_at(k, x, i) % fp_order())
}

/// The coefficient of `x` in `l(x)`.
pub open spec fn l_1(k: Vectors, n: nat) -> Seq<int> {
    Seq::new(n, |i: int| (k.a_l[i] + k.v[i] * k.w_r[i]) % fp_order())
}

/// The constant coefficient of `r(x)`.
pub open spec fn r_0(k: Vectors, n: nat) -> Seq<int> {
    Seq::new(n, |i: int| (k.w_o[i] - k.y[i]) % fp_order())
}

/// The coefficient of `x` in `r(x)`.
pub open spec fn r_1(k: Vectors, n: nat) -> Seq<int> {
    Seq::new(n, |i: int| (k.y[i] * k.a_r[i] + k.w_l[i]) % fp_order())
}

/// The coefficient of `x³` in `r(x)`.
pub open spec fn r_3(k: Vectors, n: nat) -> Seq<int> {
    Seq::new(n, |i: int| (k.y[i] * k.s_r[i]) % fp_order())
}

/// The coefficients of a polynomial of degree 6 without a constant term.
pub struct Coefficients {
    pub t1: int,
    pub t2: int,
    pub t3: int,
    pub t4: int,
    pub t5: int,
    pub t6: int,
}

/// `⟨l(x), r(x)⟩` as a polynomial.
pub open spec fn t_poly(k: Vectors, n: nat) -> Coefficients {
    let p = fp_order();
    let (l1, l2, l3) = (l_1(k, n), k.a_o, k.s_l);
    let (r0, r1, r3) = (r_0(k, n), r_1(k, n), r_3(k, n));
    Coefficients {
        t1: dot(l1, r0) % p,
        t2: (dot(l2, r0) + dot(l1, r1)) % p,
        t3: (dot(l3, r0) + dot(l2, r1)) % p,
        t4: (dot(l3, r1) + dot(l1, r3)) % p,
        t5: dot(l2, r3) % p,
        t6: dot(l3, r3) % p,
    }
}

/// The polynomial at `x`, reduced.
pub open spec fn poly6_at(t: Coefficients, x: int) -> int {
    t_sum(t.t1, t.t2, t.t3, t.t4, t.t5, t.t6, x) % fp_order()
}

/// The blinding factors of the coefficients of `t(x)`; that of `t_2` comes from
/// the commitments.
pub open spec fn blinding_poly(
    c: Circuit,
    gammas: Seq<int>,
    bl: BlindingsView,
    z: int,
) -> Coefficients {
    Coefficients {
        t1: bl.t_1,
        t2: dot(w_v(c.constraints, c.n_committed, z), gammas) % fp_order(),
        t3: bl.t_3,
        t4: bl.t_4,
        t5: bl.t_5,
        t6: bl.t_6,
    }
}

/// The synthetic blinding of `l(x)` and `r(x)`.
pub open spec fn e_blinding(bl: BlindingsView, x: int) -> int {
    (x * bl.i + (x * x) * bl.o + ((x * x) * x) * bl.s) % fp_order()
}

/// The first `n` of a list of points.
pub open spec fn bases(v: Seq<GoutPoint>, n: nat) -> Seq<GoutPoint> {
    v.take(n as int)
}

/// `n` ones.
pub open spec fn ones(n: nat) -> Seq<int> {
    Seq::new(n, |i: int| 1)
}

/// The commitments `A_I`, `A_O` and `S`.
pub open spec fn wire_commitments(gens: BpGens, w: Values, bl: BlindingsView, n: nat) -> (
    GoutPoint,
    GoutPoint,
    GoutPoint,
) {
    let (g, h) = (bases(gouts(gens.g_vec@), n), bases(gouts(gens.h_vec@), n));
    let b = seq![gens.b_blinding@];
    (
        gout_msm(b + g + h, seq![bl.i] + pad(w.a_l, n) + pad(w.a_r, n)),
        gout_msm(b + g, seq![bl.o] + pad(w.a_o, n)),
        gout_msm(b + g + h, seq![bl.s] + bl.s_l + bl.s_r),
    )
}

/// What an honest prover sends for the circuit `c` with the values `w`, the
/// blindings `gammas` of the committed values and the blinding factors `bl`;
/// `None` if a challenge that has to be inverted is zero.
#[verifier::opaque]
pub open spec fn honest_proof(
    gens: BpGens,
    log: Seq<TranscriptEvent>,
    c: Circuit,
    w: Values,
    gammas: Seq<int>,
    bl: BlindingsView,
) -> Option<ProofView> {
    let n = pad_len(c.n_mul);
    let (g, h) = (bases(gouts(gens.g_vec@), n), bases(gouts(gens.h_vec@), n));
    let (b, bb) = (gens.b@, gens.b_blinding@);
    let (a_i, a_o, s) = wire_commitments(gens, w, bl, n);
    let log1 = commit_log(log, c.n_committed, a_i, a_o, s);
    let (y, z) = (y_of(log1), z_of(log1));
    if y == 0 {
        None
    } else {
        let k = prover_vectors(c, w, bl, n, y, z);
        let t = t_poly(k, n);
        let t_1 = pedersen(b, bb, t.t1, bl.t_1);
        let t_3 = pedersen(b, bb, t.t3, bl.t_3);
        let t_4 = pedersen(b, bb, t.t4, bl.t_4);
        let t_5 = pedersen(b, bb, t.t5, bl.t_5);
        let t_6 = pedersen(b, bb, t.t6, bl.t_6);
        let log2 = poly_log(log1, t_1, t_3, t_4, t_5, t_6);
        let x = x_of(log2);
        let t_x = poly6_at(t, x);
        let t_x_blinding = poly6_at(blinding_poly(c, gammas, bl, z), x);
        let e = e_blinding(bl, x);
        let log3 = open_log(log2, t_x, t_x_blinding, e);
        let start = ipa_start(
            rounds_start(log3),
            ones(n),
            k.v,
            g,
            h,
            l_seq(k, n, x),
            r_seq(k, n, x),
        );
        match ipa_run(gout_scale(b, w_of(log3)), start) {
            None => None,
            Some(end) => Some(
                ProofView {
                    a_i,
                    a_o,
                    s,
                    t_1,
                    t_3,
                    t_4,
                    t_5,
                    t_6,
                    t_x,
                    t_x_blinding,
                    e_blinding: e,
                    l: end.l,
                    r: end.r,
                    a: end.a[0],
                    b: end.b[0],
                },
            ),
        }
    }
}

// ─── the verifier ───────────────────────────────────────────────────────────

/// The coefficients of a verification check: those of the generators `G` and `H`,
/// of `B` and the blinding base, and of the other points, with the digest of the
/// transcript that they come from.
#[verifier::ext_equal]
pub struct CheckView {
    pub g: Seq<int>,
    pub h: Seq<int>,
    pub b: int,
    pub b_blinding: int,
    pub points: Seq<GoutPoint>,
    pub scalars: Seq<int>,
    pub digest: Seq<u8>,
}

/// The transcript of a proof up to the openings.
pub open spec fn proof_log(log: Seq<TranscriptEvent>, m: nat, p: ProofView) -> Seq<TranscriptEvent> {
    open_log(
        poly_log(commit_log(log, m, p.a_i, p.a_o, p.s), p.t_1, p.t_3, p.t_4, p.t_5, p.t_6),
        p.t_x,
        p.t_x_blinding,
        p.e_blinding,
    )
}

/// The challenges of a proof.
pub struct Challenges {
    pub y: int,
    pub z: int,
    pub x: int,
    pub w: int,
    /// The challenges of the inner-product argument.
    pub us: Seq<int>,
    /// The weight of the `t(x)` check.
    pub r: int,
    /// The transcript after all of them.
    pub log: Seq<TranscriptEvent>,
}

pub open spec fn challenges(log: Seq<TranscriptEvent>, m: nat, p: ProofView) -> Challenges {
    let log1 = commit_log(log, m, p.a_i, p.a_o, p.s);
    let log2 = poly_log(log1, p.t_1, p.t_3, p.t_4, p.t_5, p.t_6);
    let log3 = open_log(log2, p.t_x, p.t_x_blinding, p.e_blinding);
    let log4 = rounds_start(log3);
    let log5 = ipa_log(log4, p.l, p.r);
    Challenges {
        y: y_of(log1),
        z: z_of(log1),
        x: x_of(log2),
        w: w_of(log3),
        us: ipa_challenges(log4, p.l, p.r),
        r: fp_challenge(log5, "r".spec_bytes()),
        log: log5.push(ev_challenge("r".spec_bytes())),
    }
}

/// The transcript digest of a check: everything of the proof is bound to it.
pub open spec fn check_digest(log: Seq<TranscriptEvent>, a: int, b: int) -> Seq<u8> {
    transcript_challenge(
        log.push(ev_field("a".spec_bytes(), a)).push(ev_field("b".spec_bytes(), b)),
        "digest".spec_bytes(),
        32,
    )
}

/// The points of a check besides the generators.
pub open spec fn check_points(commitments: Seq<GoutPoint>, p: ProofView) -> Seq<GoutPoint> {
    seq![p.a_i, p.a_o, p.s] + p.l + p.r.take(p.l.len() as int) + commitments + seq![
        p.t_1,
        p.t_3,
        p.t_4,
        p.t_5,
        p.t_6,
    ]
}

/// The scalars of the commitments `A_I`, `A_O`, `S`.
pub open spec fn wire_scalars(x: int) -> Seq<int> {
    seq![x, (x * x) % fp_order(), ((x * x) * x) % fp_order()]
}

/// The scalars of the committed values.
pub open spec fn v_scalars(wv: Seq<int>, x: int, r: int) -> Seq<int> {
    Seq::new(wv.len(), |j: int| ((r * (x * x)) * wv[j]) % fp_order())
}

/// The scalars of the commitments to the coefficients of `t(x)`.
pub open spec fn t_scalars(x: int, r: int) -> Seq<int> {
    let (x2, x3) = (x * x, (x * x) * x);
    seq![
        (r * x) % fp_order(),
        (r * x3) % fp_order(),
        (r * (x3 * x)) % fp_order(),
        (r * (x3 * x2)) % fp_order(),
        (r * (x3 * x3)) % fp_order(),
    ]
}

/// The check that a proof has to pass for the circuit `c` and the commitments:
/// the two equations of the protocol, that for `t(x)` weighted with the challenge
/// `r`, as one product. `None` if the challenge `y` is zero.
pub open spec fn check_of(
    log: Seq<TranscriptEvent>,
    c: Circuit,
    commitments: Seq<GoutPoint>,
    p: ProofView,
) -> Option<CheckView> {
    let n = pad_len(c.n_mul);
    let ch = challenges(log, c.n_committed, p);
    let k = public_vectors(c.constraints, n, ch.y, ch.z);
    let wv = w_v(c.constraints, c.n_committed, ch.z);
    let wc = w_c(c.constraints, ch.z);
    let (x, s) = (ch.x, s_vec(ch.us));
    if ch.y == 0 {
        None
    } else {
        Some(
            CheckView {
                g: Seq::new(n, |i: int| g_scalar(k, x, p.a, s, i) % fp_order()),
                h: Seq::new(n, |i: int| h_scalar(k, x, p.b, s.reverse(), i) % fp_order()),
                b: (ch.w * (p.t_x - p.a * p.b) + ch.r * ((x * x) * (delta(k, n) + wc) - p.t_x))
                    % fp_order(),
                b_blinding: (-p.e_blinding - ch.r * p.t_x_blinding) % fp_order(),
                points: check_points(commitments, p),
                scalars: wire_scalars(x) + squares(ch.us) + inverse_squares(ch.us) + v_scalars(
                    wv,
                    x,
                    ch.r,
                ) + t_scalars(x, ch.r),
                digest: check_digest(ch.log, p.a, p.b),
            },
        )
    }
}

/// The bases of the product of a check.
pub open spec fn check_bases(gens: BpGens, v: CheckView) -> Seq<GoutPoint> {
    seq![gens.b@, gens.b_blinding@] + bases(gouts(gens.g_vec@), v.g.len()) + bases(
        gouts(gens.h_vec@),
        v.h.len(),
    ) + v.points
}

/// The scalars of the product of a check.
pub open spec fn check_scalars(v: CheckView) -> Seq<int> {
    seq![v.b, v.b_blinding] + v.g + v.h + v.scalars
}

/// There is a generator for every coefficient of the check, and a coefficient for
/// every other point.
pub open spec fn check_fits(gens: BpGens, v: CheckView) -> bool {
    &&& v.g.len() <= gens.gens_capacity
    &&& v.h.len() == v.g.len()
    &&& v.points.len() == v.scalars.len()
}

/// The exponent of the product of a check is zero.
pub open spec fn check_vanishes(gens: BpGens, v: CheckView) -> bool {
    cong(dot(gout_logs(check_bases(gens, v)), check_scalars(v)), 0, fp_order())
}

// ─── several checks at once ─────────────────────────────────────────────────

/// Entry `i`; zero behind the end.
pub open spec fn entry(v: Seq<int>, i: int) -> int {
    if 0 <= i < v.len() {
        v[i]
    } else {
        0
    }
}

/// `acc + rho·v`, the shorter one of the two being padded.
pub open spec fn scaled_sum(acc: Seq<int>, v: Seq<int>, rho: int) -> Seq<int> {
    Seq::new(
        if acc.len() >= v.len() {
            acc.len()
        } else {
            v.len()
        },
        |i: int| (entry(acc, i) + rho * entry(v, i)) % fp_order(),
    )
}

/// The check with no coefficients.
pub open spec fn empty_check() -> CheckView {
    CheckView {
        g: Seq::empty(),
        h: Seq::empty(),
        b: 0,
        b_blinding: 0,
        points: Seq::empty(),
        scalars: Seq::empty(),
        digest: Seq::empty(),
    }
}

/// `acc + rho·v` for checks.
pub open spec fn absorbed(acc: CheckView, v: CheckView, rho: int) -> CheckView {
    CheckView {
        g: scaled_sum(acc.g, v.g, rho),
        h: scaled_sum(acc.h, v.h, rho),
        b: (acc.b + rho * v.b) % fp_order(),
        b_blinding: (acc.b_blinding + rho * v.b_blinding) % fp_order(),
        points: acc.points + v.points,
        scalars: acc.scalars + scaled_sum(Seq::empty(), v.scalars, rho),
        digest: acc.digest,
    }
}

/// `∑ weights[i] · checks[i]`.
pub open spec fn combined_check(checks: Seq<CheckView>, weights: Seq<int>) -> CheckView
    decreases checks.len(),
{
    if checks.len() == 0 {
        empty_check()
    } else {
        absorbed(
            combined_check(checks.drop_last(), weights),
            checks.last(),
            weights[checks.len() - 1],
        )
    }
}

/// The transcript of a batch of `n` checks, before their digests.
pub open spec fn batch_start(n: nat) -> Seq<TranscriptEvent> {
    seq![
        TranscriptEvent::Append {
            label: "dom-sep".spec_bytes(),
            message: "golden-nidkg/bp-batch/v1".spec_bytes(),
        },
        ev_u64("n".spec_bytes(), n as u64),
    ]
}

/// The transcript after the digests of `checks`.
pub open spec fn digests_log(log: Seq<TranscriptEvent>, checks: Seq<CheckView>) -> Seq<
    TranscriptEvent,
>
    decreases checks.len(),
{
    if checks.len() == 0 {
        log
    } else {
        digests_log(log, checks.drop_last()).push(
            ev_bytes("digest".spec_bytes(), checks.last().digest),
        )
    }
}

/// The transcript after `i` weights have been drawn.
pub open spec fn weight_log(log: Seq<TranscriptEvent>, i: nat) -> Seq<TranscriptEvent>
    decreases i,
{
    if i == 0 {
        log
    } else {
        weight_log(log, (i - 1) as nat).push(ev_challenge("rho".spec_bytes()))
    }
}

/// The weights of a batch.
pub open spec fn batch_weights(checks: Seq<CheckView>) -> Seq<int> {
    let log = digests_log(batch_start(checks.len()), checks);
    Seq::new(
        checks.len(),
        |i: int| fp_challenge(weight_log(log, i as nat), "rho".spec_bytes()),
    )
}

} // verus!
