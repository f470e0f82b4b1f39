//! Bulletproofs over rank-1 constraint systems: prover and verifier.
//!
//! The single-phase protocol: all gates and constraints are fixed before the first
//! challenge.
use crate::algebra::{
    cong, dot, lemma_cong_add, lemma_cong_mod, lemma_cong_mul, lemma_cong_small, lemma_cong_sub,
    lemma_dot_concat, lemma_mod_reduced, lemma_sigma_eq, lemma_sigma_zero, sigma,
};
use crate::curves::{
    extend_gouts, gout_identity, gout_in_group, gout_log, gout_logs, gout_msm, gout_scale, gouts,
    gouts_in_group, lemma_gout_eq, lemma_gout_log, Fp, GoutAffine, GoutPoint,
};
use crate::errors::{append_decimal, decimal};
use crate::field::{copy_fps, extend_fps, fp_order, fps, lemma_fp_order, lemma_fp_range};
use crate::lagrange::{inv, invertible, lemma_inv_unique};
use crate::transcript::{ev_bytes, ev_gout, transcript_log, TranscriptEvent, TranscriptExt};
use crate::zk::bp_algebra::{delta, l_at, lemma_horner6, pad, r_at, Vectors};
use crate::zk::bp_laws::{lemma_check_exponent, lemma_combined_fits, lemma_empty_vanishes};
use crate::zk::bp_protocol::{
    absorbed, bases, batch_start, batch_weights, challenges, check_bases, check_fits, check_of,
    check_scalars, check_vanishes, combined_check, commit_log, digests_log, doubled_to, e_blinding,
    empty_check, entry, honest_proof, l_1, l_seq, lemma_pad_len, ones, open_log, pad_len, poly6_at,
    poly_log, prover_vectors, public_vectors, r_0, r_1, r_3, r_seq, rounds_start, scaled_sum,
    t_poly, t_scalars, v_scalars, w_c, w_v, weight_log, wire_commitments, BlindingsView, CheckView,
    Coefficients, ProofView,
};
use crate::zk::generators::{pedersen_commit, pedersen_is, BpGens};
use crate::zk::ipa::{
    inner_product, ipa_log, ipa_made, ipa_run, ipa_start, lemma_s_vec_len, length_mismatch, powers,
    reversed, rounds_fit, InnerProductProof,
};
use crate::zk::r1cs::{
    circuit_ok, flatten, flattened, gates_hold, lc_in, lcs, next_gate, var_in, with_gate,
    with_inputs, zeros, Assignments, Circuit, ConstraintSystem, Context, FlattenedConstraints, Lc,
    LinearCombination, Values, Variable,
};
use merlin::Transcript;
use rand::rngs::StdRng;
use vstd::prelude::*;
use vstd::slice::slice_subrange;
use vstd::string::{is_ascii_spec_bytes, StringExecFns, StringSliceAdditionalSpecFns};

verus! {

/// The protocol label, which both sides absorb first.
pub open spec fn proto_event() -> TranscriptEvent {
    ev_bytes("dom-sep".spec_bytes(), "golden-nidkg/bp-r1cs/v1".spec_bytes())
}

fn append_label(transcript: &mut Transcript)
    ensures
        transcript_log(*final(transcript)) == transcript_log(*old(transcript)).push(proto_event()),
{
    proof {
        reveal_strlit("golden-nidkg/bp-r1cs/v1");
        is_ascii_spec_bytes("golden-nidkg/bp-r1cs/v1");
    }
    transcript.append_bytes("dom-sep".as_bytes(), "golden-nidkg/bp-r1cs/v1".as_bytes());
}

/// The context of a prover or verifier that has just been made.
pub open spec fn start_context(gens: BpGens, log: Seq<TranscriptEvent>) -> Context {
    Context {
        gens,
        log: log.push(proto_event()),
        blindings: Seq::empty(),
        commitments: Seq::empty(),
    }
}

/// The proof.
#[derive(Clone, Debug)]
pub struct R1CSProof {
    /// Commitment to `a_L, a_R`.
    pub a_i: GoutAffine,
    /// Commitment to `a_O`.
    pub a_o: GoutAffine,
    /// Commitment to the blinding vectors `s_L, s_R`.
    pub s: GoutAffine,
    /// Commitments to the coefficients of `t(x)` of degrees 1, 3, 4, 5, 6.
    pub t_1: GoutAffine,
    pub t_3: GoutAffine,
    pub t_4: GoutAffine,
    pub t_5: GoutAffine,
    pub t_6: GoutAffine,
    /// `t(x)` at the challenge `x`, and its blinding.
    pub t_x: Fp,
    pub t_x_blinding: Fp,
    /// Synthetic blinding factor for `l(x), r(x)`.
    pub e_blinding: Fp,
    /// Inner-product argument for `l(x), r(x)`.
    pub ipp: InnerProductProof,
}

impl View for R1CSProof {
    type V = ProofView;

    open spec fn view(&self) -> ProofView {
        ProofView {
            a_i: self.a_i@,
            a_o: self.a_o@,
            s: self.s@,
            t_1: self.t_1@,
            t_3: self.t_3@,
            t_4: self.t_4@,
            t_5: self.t_5@,
            t_6: self.t_6@,
            t_x: self.t_x@,
            t_x_blinding: self.t_x_blinding@,
            e_blinding: self.e_blinding@,
            l: gouts(self.ipp.l_vec@),
            r: gouts(self.ipp.r_vec@),
            a: self.ipp.a@,
            b: self.ipp.b@,
        }
    }
}

/// The message for a circuit whose padded size is larger than the generators allow.
pub open spec fn too_large(n: nat, capacity: nat) -> Seq<char> {
    "circuit too large: "@ + decimal(n) + " > "@ + decimal(capacity)
}

fn too_large_message(n: usize, capacity: usize) -> (r: String)
    ensures
        r@ == too_large(n as nat, capacity as nat),
{
    let mut e = String::from_str("circuit too large: ");
    append_decimal(&mut e, n as u64);
    e.append(" > ");
    append_decimal(&mut e, capacity as u64);
    e
}

proof fn lemma_doubled_at_least(p: nat, n: nat)
    ensures
        doubled_to(p, n) >= p,
    decreases
            if p >= n {
                0
            } else {
                n - p
            },
{
    if p < n && p != 0 {
        lemma_doubled_at_least(p + p, n);
    }
}

/// The least power of two that is at least `n`.
pub fn padded_len(n: usize) -> (r: usize)
    requires
        pad_len(n as nat) <= usize::MAX,
    ensures
        r == pad_len(n as nat),
{
    let mut p: usize = 1;
    while p < n
        invariant
            p > 0,
            pad_len(n as nat) == doubled_to(p as nat, n as nat),
            pad_len(n as nat) <= usize::MAX,
        decreases
            if p >= n {
                0
            } else {
                n - p
            },
    {
        proof {
            lemma_doubled_at_least((p + p) as nat, n as nat);
        }
        p = p + p;
    }
    p
}

/// `v` with zeros behind it, up to length `n`.
fn pad_vec(v: &[Fp], n: usize) -> (r: Vec<Fp>)
    requires
        v@.len() <= n,
    ensures
        r@.len() == n,
        fps(r@) == pad(fps(v@), n as nat),
{
    let mut out = copy_fps(v);
    while out.len() < n
        invariant
            v@.len() <= out@.len() <= n,
            forall|i: int| 0 <= i < v@.len() ==> #[trigger] out@[i] == v@[i],
            forall|i: int| v@.len() <= i < out@.len() ==> (#[trigger] out@[i])@ == 0,
        decreases n - out@.len(),
    {
        out.push(Fp::zero());
    }
    assert(fps(out@) =~= pad(fps(v@), n as nat));
    out
}

// ─── polynomials over F_p^n ─────────────────────────────────────────────────

proof fn lemma_mod_sum(a: int, b: int)
    ensures
        (a % fp_order() + b % fp_order()) % fp_order() == (a + b) % fp_order(),
        (a % fp_order() + b) % fp_order() == (a + b) % fp_order(),
        (a + b % fp_order()) % fp_order() == (a + b) % fp_order(),
        (a - b % fp_order()) % fp_order() == (a - b) % fp_order(),
{
    let m = fp_order();
    lemma_fp_order();
    lemma_cong_mod(a, m);
    lemma_cong_mod(b, m);
    lemma_cong_add(a % m, a, b % m, b, m);
    lemma_cong_add(a % m, a, b, b, m);
    lemma_cong_add(a, a, b % m, b, m);
    lemma_cong_sub(a, a, b % m, b, m);
}

proof fn lemma_mod_product(a: int, b: int)
    ensures
        ((a % fp_order()) * (b % fp_order())) % fp_order() == (a * b) % fp_order(),
        ((a % fp_order()) * b) % fp_order() == (a * b) % fp_order(),
        (a * (b % fp_order())) % fp_order() == (a * b) % fp_order(),
{
    let m = fp_order();
    lemma_fp_order();
    lemma_cong_mod(a, m);
    lemma_cong_mod(b, m);
    lemma_cong_mul(a % m, a, b % m, b, m);
    lemma_cong_mul(a % m, a, b, b, m);
    lemma_cong_mul(a, a, b % m, b, m);
}

/// A polynomial of degree 3 whose coefficients are vectors:
/// `p(x) = t0 + t1·x + t2·x² + t3·x³`.
struct VecPoly3 {
    t0: Vec<Fp>,
    t1: Vec<Fp>,
    t2: Vec<Fp>,
    t3: Vec<Fp>,
}

/// The value at `x` of one coordinate.
spec fn poly3_at(t0: int, t1: int, t2: int, t3: int, x: int) -> int {
    t0 + x * t1 + (x * x) * t2 + ((x * x) * x) * t3
}

proof fn lemma_horner3(t0: int, t1: int, t2: int, t3: int, x: int)
    ensures
        t0 + x * (t1 + x * (t2 + x * t3)) == poly3_at(t0, t1, t2, t3, x),
{
    let e3 = x * t3;
    let e2 = t2 + e3;
    let e1 = x * e2;
    assert(x * (t1 + e1) == x * t1 + x * e1) by (nonlinear_arith);
    assert(x * (x * e2) == (x * x) * e2) by (nonlinear_arith);
    let xx = x * x;
    assert(xx * (t2 + e3) == xx * t2 + xx * e3) by (nonlinear_arith);
    assert(xx * (x * t3) == (xx * x) * t3) by (nonlinear_arith);
}

impl VecPoly3 {
    spec fn sized(&self, n: nat) -> bool {
        &&& self.t0@.len() == n
        &&& self.t1@.len() == n
        &&& self.t2@.len() == n
        &&& self.t3@.len() == n
    }

    fn eval(&self, x: Fp) -> (r: Vec<Fp>)
        requires
            self.sized(self.t0@.len()),
        ensures
            r@.len() == self.t0@.len(),
            forall|i: int|
                0 <= i < r@.len() ==> (#[trigger] r@[i])@ == poly3_at(
                    self.t0@[i]@,
                    self.t1@[i]@,
                    self.t2@[i]@,
                    self.t3@[i]@,
                    x@,
                ) % fp_order(),
    {
        let n: usize = self.t0.len();
        let mut out: Vec<Fp> = Vec::with_capacity(n);
        let mut i: usize = 0;
        while i < n
            invariant
                i <= n,
                n == self.t0@.len(),
                self.sized(n as nat),
                out@.len() == i,
                forall|k: int|
                    0 <= k < i ==> (#[trigger] out@[k])@ == poly3_at(
                        self.t0@[k]@,
                        self.t1@[k]@,
                        self.t2@[k]@,
                        self.t3@[k]@,
                        x@,
                    ) % fp_order(),
            decreases n - i,
        {
            let e = x * self.t3[i];
            let f = self.t2[i] + e;
            let g = x * f;
            let h = self.t1[i] + g;
            let k = x * h;
            let r = self.t0[i] + k;
            proof {
                let (t0, t1, t2, t3) = (
                    self.t0@[i as int]@,
                    self.t1@[i as int]@,
                    self.t2@[i as int]@,
                    self.t3@[i as int]@,
                );
                lemma_mod_sum(t2, x@ * t3);
                lemma_mod_product(x@, t2 + x@ * t3);
                lemma_mod_sum(t1, x@ * (t2 + x@ * t3));
                lemma_mod_product(x@, t1 + x@ * (t2 + x@ * t3));
                lemma_mod_sum(t0, x@ * (t1 + x@ * (t2 + x@ * t3)));
                lemma_horner3(t0, t1, t2, t3, x@);
            }
            out.push(r);
            i = i + 1;
        }
        out
    }

    /// `⟨l(x), r(x)⟩` as a polynomial of degree 6, where `l.t0 = 0`, so that it has
    /// no constant term.
    fn inner_product(&self, r: &VecPoly3) -> (t: Poly6)
        requires
            self.sized(self.t0@.len()),
            r.sized(self.t0@.len()),
        ensures
            t@ == product_poly(*self, *r),
    {
        let t1 = pair(&self.t1, &r.t0) + pair(&self.t0, &r.t1);
        let t2 = pair(&self.t2, &r.t0) + pair(&self.t1, &r.t1) + pair(&self.t0, &r.t2);
        let t3 = pair(&self.t3, &r.t0) + pair(&self.t2, &r.t1) + pair(&self.t1, &r.t2) + pair(
            &self.t0,
            &r.t3,
        );
        let t4 = pair(&self.t3, &r.t1) + pair(&self.t2, &r.t2) + pair(&self.t1, &r.t3);
        let t5 = pair(&self.t3, &r.t2) + pair(&self.t2, &r.t3);
        let t6 = pair(&self.t3, &r.t3);
        proof {
            let (a0, a1, a2, a3) = (fps(self.t0@), fps(self.t1@), fps(self.t2@), fps(self.t3@));
            let (b0, b1, b2, b3) = (fps(r.t0@), fps(r.t1@), fps(r.t2@), fps(r.t3@));
            lemma_mod_sum(dot(a1, b0), dot(a0, b1));
            lemma_mod_sum(dot(a2, b0), dot(a1, b1));
            lemma_mod_sum(dot(a2, b0) + dot(a1, b1), dot(a0, b2));
            lemma_mod_sum(dot(a3, b0), dot(a2, b1));
            lemma_mod_sum(dot(a3, b0) + dot(a2, b1), dot(a1, b2));
            lemma_mod_sum(dot(a3, b0) + dot(a2, b1) + dot(a1, b2), dot(a0, b3));
            lemma_mod_sum(dot(a3, b1), dot(a2, b2));
            lemma_mod_sum(dot(a3, b1) + dot(a2, b2), dot(a1, b3));
            lemma_mod_sum(dot(a3, b2), dot(a2, b3));
        }
        Poly6 { t1, t2, t3, t4, t5, t6 }
    }
}

/// The coefficients of the inner product of two vector polynomials, from degree 1
/// on.
spec fn product_poly(l: VecPoly3, r: VecPoly3) -> Coefficients {
    let p = fp_order();
    let (a0, a1, a2, a3) = (fps(l.t0@), fps(l.t1@), fps(l.t2@), fps(l.t3@));
    let (b0, b1, b2, b3) = (fps(r.t0@), fps(r.t1@), fps(r.t2@), fps(r.t3@));
    Coefficients {
        t1: (dot(a1, b0) + dot(a0, b1)) % p,
        t2: (dot(a2, b0) + dot(a1, b1) + dot(a0, b2)) % p,
        t3: (dot(a3, b0) + dot(a2, b1) + dot(a1, b2) + dot(a0, b3)) % p,
        t4: (dot(a3, b1) + dot(a2, b2) + dot(a1, b3)) % p,
        t5: (dot(a3, b2) + dot(a2, b3)) % p,
        t6: dot(a3, b3) % p,
    }
}

fn pair(a: &Vec<Fp>, b: &Vec<Fp>) -> (r: Fp)
    requires
        a@.len() == b@.len(),
    ensures
        r@ == dot(fps(a@), fps(b@)) % fp_order(),
{
    inner_product(a.as_slice(), b.as_slice())
}

/// A polynomial of degree 6 with no constant term.
struct Poly6 {
    t1: Fp,
    t2: Fp,
    t3: Fp,
    t4: Fp,
    t5: Fp,
    t6: Fp,
}

impl View for Poly6 {
    type V = Coefficients;

    closed spec fn view(&self) -> Coefficients {
        Coefficients {
            t1: self.t1@,
            t2: self.t2@,
            t3: self.t3@,
            t4: self.t4@,
            t5: self.t5@,
            t6: self.t6@,
        }
    }
}

impl Poly6 {
    fn eval(&self, x: Fp) -> (r: Fp)
        ensures
            r@ == poly6_at(self@, x@),
    {
        let e6 = x * self.t6;
        let f5 = self.t5 + e6;
        let e5 = x * f5;
        let f4 = self.t4 + e5;
        let e4 = x * f4;
        let f3 = self.t3 + e4;
        let e3 = x * f3;
        let f2 = self.t2 + e3;
        let e2 = x * f2;
        let f1 = self.t1 + e2;
        let r = x * f1;
        proof {
            let (t1, t2, t3, t4, t5, t6) = (
                self.t1@,
                self.t2@,
                self.t3@,
                self.t4@,
                self.t5@,
                self.t6@,
            );
            let h5 = t5 + x@ * t6;
            lemma_mod_sum(t5, x@ * t6);
            lemma_mod_product(x@, h5);
            let h4 = t4 + x@ * h5;
            lemma_mod_sum(t4, x@ * h5);
            lemma_mod_product(x@, h4);
            let h3 = t3 + x@ * h4;
            lemma_mod_sum(t3, x@ * h4);
            lemma_mod_product(x@, h3);
            let h2 = t2 + x@ * h3;
            lemma_mod_sum(t2, x@ * h3);
            lemma_mod_product(x@, h2);
            let h1 = t1 + x@ * h2;
            lemma_mod_sum(t1, x@ * h2);
            lemma_mod_product(x@, h1);
            lemma_horner6(t1, t2, t3, t4, t5, t6, x@);
        }
        r
    }
}

// ─── prover ─────────────────────────────────────────────────────────────────

/// Builds a circuit together with the values on its wires, and proves that they
/// satisfy it.
pub struct Prover<'g> {
    gens: &'g BpGens,
    transcript: Transcript,
    constraints: Vec<LinearCombination>,
    assignments: Assignments,
    /// Blinding factors `γ_j` of the commitments `V_j = B^{v_j} · B_b^{γ_j}`.
    v_blindings: Vec<Fp>,
}

impl<'g> Prover<'g> {
    pub fn new(gens: &'g BpGens, transcript: Transcript) -> (r: Self)
        ensures
            r.well_formed(),
            r.context() == start_context(*gens, transcript_log(transcript)),
            r.circuit() == (Circuit { n_mul: 0, n_committed: 0, constraints: Seq::empty() }),
            r.values() == Some(
                Values { a_l: Seq::empty(), a_r: Seq::empty(), a_o: Seq::empty(), v: Seq::empty() },
            ),
    {
        let mut transcript = transcript;
        append_label(&mut transcript);
        let r = Prover {
            gens,
            transcript,
            constraints: Vec::new(),
            assignments: Assignments::new(),
            v_blindings: Vec::new(),
        };
        proof {
            assert(fps(r.v_blindings@) =~= Seq::<int>::empty());
            assert(lcs(r.constraints@) =~= Seq::empty());
            let w = r.assignments@;
            assert(w.a_l =~= Seq::<int>::empty());
            assert(w.a_r =~= Seq::<int>::empty());
            assert(w.a_o =~= Seq::<int>::empty());
            assert(w.v =~= Seq::<int>::empty());
        }
        r
    }

    /// Commits to a value `v` with blinding `γ`. The commitment is absorbed by the
    /// transcript. With `γ = 0` it is the public point `V = B^v`.
    pub fn commit(&mut self, v: Fp, gamma: Fp) -> (r: (GoutAffine, Variable))
        requires
            old(self).well_formed(),
        ensures
            final(self).well_formed(),
            pedersen_is(
                old(self).context().gens.b@,
                old(self).context().gens.b_blinding@,
                v@,
                gamma@,
                r.0@,
            ),
            r.1 == Variable::Committed(old(self).circuit().n_committed as usize),
            final(self).context() == (Context {
                log: old(self).context().log.push(ev_gout("V".spec_bytes(), r.0@)),
                blindings: old(self).context().blindings.push(gamma@),
                ..old(self).context()
            }),
            final(self).circuit() == (Circuit {
                n_committed: old(self).circuit().n_committed + 1,
                ..old(self).circuit()
            }),
            final(self).values() == Some(
                Values {
                    v: (old(self).values()->Some_0).v.push(v@),
                    ..old(self).values()->Some_0
                },
            ),
    {
        let ghost w0 = self.assignments@;
        let ghost b0 = self.v_blindings@;
        let ghost c0 = self.circuit();
        let i: usize = self.assignments.v.len();
        let vp = pedersen_commit(&self.gens.b, &self.gens.b_blinding, &v, &gamma);
        self.assignments.v.push(v);
        self.v_blindings.push(gamma);
        self.transcript.append_gout("V".as_bytes(), &vp);
        proof {
            let w = self.assignments@;
            assert(w.v =~= w0.v.push(v@));
            assert forall|k: int| 0 <= k < w.a_o.len() implies cong(
                w.a_l[k] * w.a_r[k],
                #[trigger] w.a_o[k],
                fp_order(),
            ) by {
                assert(cong(w0.a_l[k] * w0.a_r[k], w0.a_o[k], fp_order()));
            }
            assert(fps(self.v_blindings@) =~= fps(b0).push(gamma@));
            assert forall|q: int| 0 <= q < self.circuit().constraints.len() implies lc_in(
                #[trigger] self.circuit().constraints[q],
                self.circuit().n_mul,
                self.circuit().n_committed,
            ) by {
                assert(lc_in(c0.constraints[q], c0.n_mul, c0.n_committed));
                lemma_lc_in_more(
                    c0.constraints[q],
                    c0.n_mul,
                    c0.n_committed,
                    c0.n_mul,
                    c0.n_committed + 1,
                );
            }
        }
        (vp, Variable::Committed(i))
    }

    fn alloc_mul(&mut self, l: Fp, r: Fp) -> (res: (Variable, Variable, Variable))
        requires
            old(self).well_formed(),
        ensures
            final(self).well_formed(),
            final(self).context() == old(self).context(),
            res == next_gate(old(self).circuit()),
            final(self).circuit() == with_gate(old(self).circuit()),
            final(self).values() == Some(with_inputs(old(self).values()->Some_0, l@, r@)),
    {
        let ghost w0 = self.assignments@;
        let ghost c0 = self.circuit();
        let i: usize = self.assignments.a_l.len();
        let o = l * r;
        self.assignments.a_l.push(l);
        self.assignments.a_r.push(r);
        self.assignments.a_o.push(o);
        proof {
            let w = self.assignments@;
            let u = with_inputs(w0, l@, r@);
            assert(w.a_l =~= u.a_l);
            assert(w.a_r =~= u.a_r);
            assert(w.a_o =~= u.a_o);
            lemma_fp_order();
            lemma_cong_mod(l@ * r@, fp_order());
            assert forall|k: int| 0 <= k < w.a_o.len() implies cong(
                w.a_l[k] * w.a_r[k],
                #[trigger] w.a_o[k],
                fp_order(),
            ) by {
                if k < w0.a_o.len() {
                    assert(cong(w0.a_l[k] * w0.a_r[k], w0.a_o[k], fp_order()));
                }
            }
            assert forall|q: int| 0 <= q < self.circuit().constraints.len() implies lc_in(
                #[trigger] self.circuit().constraints[q],
                self.circuit().n_mul,
                self.circuit().n_committed,
            ) by {
                assert(lc_in(c0.constraints[q], c0.n_mul, c0.n_committed));
                lemma_lc_in_more(c0.constraints[q], c0.n_mul, c0.n_committed, c0.n_mul + 1, c0.n_committed);
            }
        }
        (
            Variable::MultiplierLeft(i),
            Variable::MultiplierRight(i),
            Variable::MultiplierOutput(i),
        )
    }
}

/// The blinding factors of a proof.
pub struct Blindings {
    pub i_blinding: Fp,
    pub o_blinding: Fp,
    pub s_blinding: Fp,
    /// One for every gate of the padded circuit.
    pub s_l: Vec<Fp>,
    pub s_r: Vec<Fp>,
    pub t_1: Fp,
    pub t_3: Fp,
    pub t_4: Fp,
    pub t_5: Fp,
    pub t_6: Fp,
}

impl View for Blindings {
    type V = BlindingsView;

    open spec fn view(&self) -> BlindingsView {
        BlindingsView {
            i: self.i_blinding@,
            o: self.o_blinding@,
            s: self.s_blinding@,
            s_l: fps(self.s_l@),
            s_r: fps(self.s_r@),
            t_1: self.t_1@,
            t_3: self.t_3@,
            t_4: self.t_4@,
            t_5: self.t_5@,
            t_6: self.t_6@,
        }
    }
}

/// `p` is in the prime-order group, with the exponent `e`.
pub open spec fn point_is(p: GoutPoint, e: int) -> bool {
    gout_in_group(p) && cong(gout_log(p), e, fp_order())
}

/// `B_b^blinding · G^x · H^y`.
fn blinded_product(
    b_blinding: &GoutAffine,
    blinding: Fp,
    g: &[GoutAffine],
    x: &[Fp],
    h: &[GoutAffine],
    y: &[Fp],
) -> (r: GoutAffine)
    requires
        g@.len() == x@.len(),
        h@.len() == y@.len(),
    ensures
        r@ == gout_msm(
            seq![b_blinding@] + gouts(g@) + gouts(h@),
            seq![blinding@] + fps(x@) + fps(y@),
        ),
        gout_in_group(b_blinding@) && gouts_in_group(gouts(g@)) && gouts_in_group(gouts(h@))
            ==> point_is(
            r@,
            gout_log(b_blinding@) * blinding@ + dot(gout_logs(gouts(g@)), fps(x@)) + dot(
                gout_logs(gouts(h@)),
                fps(y@),
            ),
        ),
{
    let mut points: Vec<GoutAffine> = Vec::new();
    let mut scalars: Vec<Fp> = Vec::new();
    points.push(*b_blinding);
    scalars.push(blinding);
    extend_gouts(&mut points, g);
    extend_fps(&mut scalars, x);
    extend_gouts(&mut points, h);
    extend_fps(&mut scalars, y);
    let r = GoutAffine::msm(points.as_slice(), scalars.as_slice());
    proof {
        let (b, gp, hp) = (seq![b_blinding@], gouts(g@), gouts(h@));
        let (k, xs, ys) = (seq![blinding@], fps(x@), fps(y@));
        assert(gouts(points@) =~= b + gp + hp);
        assert(fps(scalars@) =~= k + xs + ys);
        if gout_in_group(b_blinding@) && gouts_in_group(gp) && gouts_in_group(hp) {
            let all = b + gp + hp;
            assert forall|i: int| 0 <= i < all.len() implies #[trigger] gout_in_group(all[i]) by {
                if i > 0 && i < 1 + gp.len() {
                    assert(gout_in_group(gp[i - 1]));
                } else if i > 0 {
                    assert(gout_in_group(hp[i - 1 - gp.len()]));
                }
            }
            assert(gout_logs(all) =~= seq![gout_log(b_blinding@)] + gout_logs(gp) + gout_logs(hp));
            lemma_dot_concat(seq![gout_log(b_blinding@)], k, gout_logs(gp), xs);
            lemma_dot_concat(
                seq![gout_log(b_blinding@)] + gout_logs(gp),
                k + xs,
                gout_logs(hp),
                ys,
            );
            lemma_dot_one(gout_log(b_blinding@), blinding@);
            let e = dot(gout_logs(all), k + xs + ys);
            lemma_fp_order();
            lemma_gout_log(r@, e % fp_order());
            lemma_cong_mod(e, fp_order());
        }
    }
    r
}

proof fn lemma_dot_one(a: int, b: int)
    ensures
        dot(seq![a], seq![b]) == a * b,
{
    reveal_with_fuel(sigma, 2);
}

/// The polynomials `l(x)` and `r(x)`.
fn vector_polys(
    a_l: &[Fp],
    a_r: &[Fp],
    a_o: &[Fp],
    s_l: &[Fp],
    s_r: &[Fp],
    fl: &FlattenedConstraints,
    y_pows: &[Fp],
    y_inv_pows: &[Fp],
) -> (r: (VecPoly3, VecPoly3))
    requires
        a_r@.len() == a_l@.len(),
        a_o@.len() == a_l@.len(),
        s_l@.len() == a_l@.len(),
        s_r@.len() == a_l@.len(),
        fl.w_l@.len() == a_l@.len(),
        fl.w_r@.len() == a_l@.len(),
        fl.w_o@.len() == a_l@.len(),
        y_pows@.len() == a_l@.len(),
        y_inv_pows@.len() == a_l@.len(),
    ensures
        r.0.sized(a_l@.len()),
        r.1.sized(a_l@.len()),
        forall|i: int| 0 <= i < a_l@.len() ==> (#[trigger] r.0.t0@[i])@ == 0,
        forall|i: int|
            0 <= i < a_l@.len() ==> (#[trigger] r.0.t1@[i])@ == (a_l@[i]@ + y_inv_pows@[i]@
                * fl.w_r@[i]@) % fp_order(),
        r.0.t2@ == a_o@,
        r.0.t3@ == s_l@,
        forall|i: int|
            0 <= i < a_l@.len() ==> (#[trigger] r.1.t0@[i])@ == (fl.w_o@[i]@ - y_pows@[i]@)
                % fp_order(),
        forall|i: int|
            0 <= i < a_l@.len() ==> (#[trigger] r.1.t1@[i])@ == (y_pows@[i]@ * a_r@[i]@
                + fl.w_l@[i]@) % fp_order(),
        forall|i: int| 0 <= i < a_l@.len() ==> (#[trigger] r.1.t2@[i])@ == 0,
        forall|i: int|
            0 <= i < a_l@.len() ==> (#[trigger] r.1.t3@[i])@ == (y_pows@[i]@ * s_r@[i]@)
                % fp_order(),
{
    let n: usize = a_l.len();
    let mut l1: Vec<Fp> = Vec::with_capacity(n);
    let mut r0: Vec<Fp> = Vec::with_capacity(n);
    let mut r1: Vec<Fp> = Vec::with_capacity(n);
    let mut r3: Vec<Fp> = Vec::with_capacity(n);
    let mut i: usize = 0;
    while i < n
        invariant
            i <= n,
            n == a_l@.len(),
            a_r@.len() == n,
            a_o@.len() == n,
            s_l@.len() == n,
            s_r@.len() == n,
            fl.w_l@.len() == n,
            fl.w_r@.len() == n,
            fl.w_o@.len() == n,
            y_pows@.len() == n,
            y_inv_pows@.len() == n,
            l1@.len() == i,
            r0@.len() == i,
            r1@.len() == i,
            r3@.len() == i,
            forall|k: int|
                0 <= k < i ==> (#[trigger] l1@[k])@ == (a_l@[k]@ + y_inv_pows@[k]@ * fl.w_r@[k]@)
                    % fp_order(),
            forall|k: int|
                0 <= k < i ==> (#[trigger] r0@[k])@ == (fl.w_o@[k]@ - y_pows@[k]@) % fp_order(),
            forall|k: int|
                0 <= k < i ==> (#[trigger] r1@[k])@ == (y_pows@[k]@ * a_r@[k]@ + fl.w_l@[k]@)
                    % fp_order(),
            forall|k: int|
                0 <= k < i ==> (#[trigger] r3@[k])@ == (y_pows@[k]@ * s_r@[k]@) % fp_order(),
        decreases n - i,
    {
        let vw = y_inv_pows[i] * fl.w_r[i];
        let ya = y_pows[i] * a_r[i];
        let e1 = a_l[i] + vw;
        let e2 = ya + fl.w_l[i];
        proof {
            lemma_mod_sum(a_l@[i as int]@, y_inv_pows@[i as int]@ * fl.w_r@[i as int]@);
            lemma_mod_sum(y_pows@[i as int]@ * a_r@[i as int]@, fl.w_l@[i as int]@);
        }
        l1.push(e1);
        r0.push(fl.w_o[i] - y_pows[i]);
        r1.push(e2);
        r3.push(y_pows[i] * s_r[i]);
        i = i + 1;
    }
    (
        VecPoly3 { t0: zeros(n), t1: l1, t2: copy_fps(a_o), t3: copy_fps(s_l) },
        VecPoly3 { t0: r0, t1: r1, t2: zeros(n), t3: r3 },
    )
}

proof fn lemma_dot_zeros(a: Seq<int>, b: Seq<int>)
    requires
        a.len() == b.len(),
        forall|i: int| 0 <= i < a.len() ==> #[trigger] a[i] == 0 || b[i] == 0,
    ensures
        dot(a, b) == 0,
{
    let f = |i: int| a[i] * b[i];
    assert forall|i: int| 0 <= i < a.len() implies #[trigger] f(i) == 0 by {
        let (x, y) = (a[i], b[i]);
        assert(a[i] == 0 || b[i] == 0);
        assert(x == 0 || y == 0 ==> x * y == 0) by (nonlinear_arith);
    }
    lemma_sigma_zero(a.len(), f);
}

/// The polynomials of the prover are those of [`prover_vectors`].
proof fn lemma_polys(l: VecPoly3, r: VecPoly3, k: Vectors, n: nat)
    requires
        l.sized(n),
        r.sized(n),
        k.a_o.len() == n,
        k.s_l.len() == n,
        fps(l.t1@) == l_1(k, n),
        fps(l.t2@) == k.a_o,
        fps(l.t3@) == k.s_l,
        fps(r.t0@) == r_0(k, n),
        fps(r.t1@) == r_1(k, n),
        fps(r.t3@) == r_3(k, n),
        forall|i: int| 0 <= i < n ==> (#[trigger] l.t0@[i])@ == 0,
        forall|i: int| 0 <= i < n ==> (#[trigger] r.t2@[i])@ == 0,
    ensures
        product_poly(l, r) == t_poly(k, n),
        forall|i: int, x: int|
            0 <= i < n ==> #[trigger] (poly3_at(
                l.t0@[i]@,
                l.t1@[i]@,
                l.t2@[i]@,
                l.t3@[i]@,
                x,
            ) % fp_order()) == l_at(k, x, i) % fp_order(),
        forall|i: int, x: int|
            0 <= i < n ==> #[trigger] (poly3_at(
                r.t0@[i]@,
                r.t1@[i]@,
                r.t2@[i]@,
                r.t3@[i]@,
                x,
            ) % fp_order()) == r_at(k, x, i) % fp_order(),
{
    let m = fp_order();
    lemma_fp_order();
    let (a0, b2) = (fps(l.t0@), fps(r.t2@));
    let (a1, a2, a3) = (fps(l.t1@), fps(l.t2@), fps(l.t3@));
    let (b0, b1, b3) = (fps(r.t0@), fps(r.t1@), fps(r.t3@));
    assert forall|i: int| 0 <= i < n implies #[trigger] a0[i] == 0 by {
        assert(l.t0@[i]@ == 0);
    }
    assert forall|i: int| 0 <= i < n implies #[trigger] b2[i] == 0 by {
        assert(r.t2@[i]@ == 0);
    }
    lemma_dot_zeros(a0, b1);
    lemma_dot_zeros(a0, b2);
    lemma_dot_zeros(a0, b3);
    lemma_dot_zeros(a1, b2);
    lemma_dot_zeros(a2, b2);
    lemma_dot_zeros(a3, b2);
    assert forall|i: int, x: int| 0 <= i < n implies #[trigger] (poly3_at(
        l.t0@[i]@,
        l.t1@[i]@,
        l.t2@[i]@,
        l.t3@[i]@,
        x,
    ) % m) == l_at(k, x, i) % m by {
        assert(l.t1@[i]@ == l_1(k, n)[i]) by {
            assert(fps(l.t1@)[i] == l.t1@[i]@);
        }
        assert(l.t2@[i]@ == k.a_o[i]) by {
            assert(fps(l.t2@)[i] == l.t2@[i]@);
        }
        assert(l.t3@[i]@ == k.s_l[i]) by {
            assert(fps(l.t3@)[i] == l.t3@[i]@);
        }
        let (p, q) = (k.a_l[i], k.v[i] * k.w_r[i]);
        lemma_cong_mod(p + q, m);
        lemma_cong_mul(x, x, (p + q) % m, p + q, m);
        assert(x * (p + q) == x * p + x * q) by (nonlinear_arith);
        let rest = (x * x) * k.a_o[i] + ((x * x) * x) * k.s_l[i];
        lemma_cong_add(x * ((p + q) % m), x * p + x * q, rest, rest, m);
        assert(l.t0@[i]@ == 0);
    }
    assert forall|i: int, x: int| 0 <= i < n implies #[trigger] (poly3_at(
        r.t0@[i]@,
        r.t1@[i]@,
        r.t2@[i]@,
        r.t3@[i]@,
        x,
    ) % m) == r_at(k, x, i) % m by {
        assert(r.t0@[i]@ == r_0(k, n)[i]) by {
            assert(fps(r.t0@)[i] == r.t0@[i]@);
        }
        assert(r.t1@[i]@ == r_1(k, n)[i]) by {
            assert(fps(r.t1@)[i] == r.t1@[i]@);
        }
        assert(r.t3@[i]@ == r_3(k, n)[i]) by {
            assert(fps(r.t3@)[i] == r.t3@[i]@);
        }
        assert(r.t2@[i]@ == 0);
        let (p, q, s) = (k.w_o[i] - k.y[i], k.y[i] * k.a_r[i] + k.w_l[i], k.y[i] * k.s_r[i]);
        let x3 = (x * x) * x;
        let x2 = x * x;
        assert(x2 * 0 == 0);
        lemma_cong_mod(p, m);
        lemma_cong_mod(q, m);
        lemma_cong_mod(s, m);
        lemma_cong_mul(x, x, q % m, q, m);
        lemma_cong_mul(x3, x3, s % m, s, m);
        lemma_cong_add(p % m, p, x * (q % m), x * q, m);
        lemma_cong_add(p % m + x * (q % m), p + x * q, x3 * (s % m), x3 * s, m);
    }
}

/// The flattened constraints and the powers of the challenges are the public
/// vectors.
proof fn lemma_public(
    fl: FlattenedConstraints,
    y_pows: Seq<Fp>,
    y_inv_pows: Seq<Fp>,
    c: Circuit,
    n: nat,
    y: int,
    z: int,
)
    requires
        flattened(fl, c.constraints, n, c.n_committed, z),
        y_pows.len() == n,
        y_inv_pows.len() == n,
        forall|i: int|
            0 <= i < n ==> (#[trigger] y_pows[i])@ == vstd::arithmetic::power::pow(y, i as nat)
                % fp_order(),
        forall|i: int|
            0 <= i < n ==> (#[trigger] y_inv_pows[i])@ == vstd::arithmetic::power::pow(
                inv(y),
                i as nat,
            ) % fp_order(),
    ensures
        ({
            let k = public_vectors(c.constraints, n, y, z);
            &&& fps(fl.w_l@) == k.w_l
            &&& fps(fl.w_r@) == k.w_r
            &&& fps(fl.w_o@) == k.w_o
            &&& fps(fl.w_v@) == w_v(c.constraints, c.n_committed, z)
            &&& fps(y_pows) == k.y
            &&& fps(y_inv_pows) == k.v
        }),
{
    let k = public_vectors(c.constraints, n, y, z);
    assert(fps(fl.w_l@) =~= k.w_l);
    assert(fps(fl.w_r@) =~= k.w_r);
    assert(fps(fl.w_o@) =~= k.w_o);
    assert(fps(fl.w_v@) =~= w_v(c.constraints, c.n_committed, z));
    assert(fps(y_pows) =~= k.y);
    assert(fps(y_inv_pows) =~= k.v);
}

/// What is known of a proof that [`Prover::prove_with`] has made: it is the honest
/// one, its inner-product argument is one for `l(x)` and `r(x)`, and for
/// generators of the prime-order group its points have the exponents that the
/// protocol says.
#[verifier::opaque]
pub open spec fn proof_made(
    gens: BpGens,
    log: Seq<TranscriptEvent>,
    c: Circuit,
    w: Values,
    gammas: Seq<int>,
    bl: BlindingsView,
    p: R1CSProof,
) -> bool {
    let n = pad_len(c.n_mul);
    let ch = challenges(log, c.n_committed, p@);
    let k = prover_vectors(c, w, bl, n, ch.y, ch.z);
    let t = t_poly(k, n);
    let (g, h) = (bases(gouts(gens.g_vec@), n), bases(gouts(gens.h_vec@), n));
    let (lb, lbb) = (gout_log(gens.b@), gout_log(gens.b_blinding@));
    let (lg, lh) = (gout_logs(g), gout_logs(h));
    let start = rounds_start(crate::zk::bp_protocol::proof_log(log, c.n_committed, p@));
    let q = gout_scale(gens.b@, ch.w);
    &&& honest_proof(gens, log, c, w, gammas, bl) == Some(p@)
    &&& ch.y != 0 && invertible(ch.y)
    &&& ipa_made(
        p.ipp,
        start,
        ipa_log(start, p@.l, p@.r),
        q,
        ones(n),
        k.v,
        g,
        h,
        l_seq(k, n, ch.x),
        r_seq(k, n, ch.x),
    )
    &&& gens.in_group() ==> {
        &&& point_is(q, lb * ch.w)
        &&& point_is(p@.a_i, lbb * bl.i + dot(lg, k.a_l) + dot(lh, k.a_r))
        &&& point_is(p@.a_o, lbb * bl.o + dot(lg, k.a_o))
        &&& point_is(p@.s, lbb * bl.s + dot(lg, k.s_l) + dot(lh, k.s_r))
        &&& point_is(p@.t_1, lb * t.t1 + lbb * bl.t_1)
        &&& point_is(p@.t_3, lb * t.t3 + lbb * bl.t_3)
        &&& point_is(p@.t_4, lb * t.t4 + lbb * bl.t_4)
        &&& point_is(p@.t_5, lb * t.t5 + lbb * bl.t_5)
        &&& point_is(p@.t_6, lb * t.t6 + lbb * bl.t_6)
    }
}

fn one_vec(n: usize) -> (r: Vec<Fp>)
    ensures
        r@.len() == n,
        fps(r@) == ones(n as nat),
{
    let mut out: Vec<Fp> = Vec::with_capacity(n);
    while out.len() < n
        invariant
            out@.len() <= n,
            forall|i: int| 0 <= i < out@.len() ==> (#[trigger] out@[i])@ == 1,
        decreases n - out@.len(),
    {
        out.push(Fp::one());
    }
    assert(fps(out@) =~= ones(n as nat));
    out
}

/// Generators of the prime-order group: so are the first `n` of them.
proof fn lemma_bases_in_group(v: Seq<GoutPoint>, n: nat)
    requires
        gouts_in_group(v),
        n <= v.len(),
    ensures
        gouts_in_group(bases(v, n)),
{
    assert forall|i: int| 0 <= i < n implies #[trigger] gout_in_group(bases(v, n)[i]) by {
        assert(gout_in_group(v[i]));
    }
}

impl<'g> Prover<'g> {
    /// The proof for the circuit so far, with the given blinding factors.
    #[verifier::spinoff_prover]
    #[verifier::rlimit(60)]
    pub fn prove_with(self, blindings: &Blindings) -> (res: Result<R1CSProof, String>)
        requires
            self.well_formed(),
            self.context().gens.well_formed(),
            pad_len(self.circuit().n_mul) <= usize::MAX,
            pad_len(self.circuit().n_mul) <= self.context().gens.gens_capacity ==> {
                &&& blindings.s_l@.len() == pad_len(self.circuit().n_mul)
                &&& blindings.s_r@.len() == pad_len(self.circuit().n_mul)
            },
        ensures
            ({
                let (cx, c, w) = (self.context(), self.circuit(), self.values()->Some_0);
                let n = pad_len(c.n_mul);
                if n > cx.gens.gens_capacity {
                    res matches Err(e) && e@ == too_large(n, cx.gens.gens_capacity as nat)
                } else {
                    match (res, honest_proof(cx.gens, cx.log, c, w, cx.blindings, blindings@)) {
                        (Ok(p), Some(v)) => {
                            &&& p@ == v
                            &&& proof_made(
                                cx.gens,
                                cx.log,
                                c,
                                w,
                                cx.blindings,
                                blindings@,
                                p,
                            )
                        },
                        (Err(e), None) => e@ == "zero challenge"@,
                        _ => false,
                    }
                }
            }),
    {
        proof {
            reveal(proof_made);
            reveal(honest_proof);
        }
        let gens = self.gens;
        let mut transcript = self.transcript;
        let ghost log0 = transcript_log(transcript);
        let ghost (c, w, gammas, bl) = (
            self.circuit(),
            self.values()->Some_0,
            fps(self.v_blindings@),
            blindings@,
        );
        let n0: usize = self.assignments.a_l.len();
        let n = padded_len(n0);
        if n > gens.gens_capacity {
            return Err(too_large_message(n, gens.gens_capacity));
        }
        proof {
            lemma_pad_len(c.n_mul);
            self.lemma_well_formed();
        }
        let m: usize = self.assignments.v.len();
        let (g_vec, h_vec) = gens.share(n);
        let ghost (g, h) = (bases(gouts(gens.g_vec@), n as nat), bases(gouts(gens.h_vec@), n as nat));
        proof {
            assert(gouts(g_vec@) =~= g);
            assert(gouts(h_vec@) =~= h);
            if gens.in_group() {
                lemma_bases_in_group(gouts(gens.g_vec@), n as nat);
                lemma_bases_in_group(gouts(gens.h_vec@), n as nat);
            }
        }
        // Commit to the wires.
        let a_l = pad_vec(self.assignments.a_l.as_slice(), n);
        let a_r = pad_vec(self.assignments.a_r.as_slice(), n);
        let a_o = pad_vec(self.assignments.a_o.as_slice(), n);
        let empty_points: Vec<GoutAffine> = Vec::new();
        let empty_scalars: Vec<Fp> = Vec::new();
        let a_i_pt = blinded_product(
            &gens.b_blinding,
            blindings.i_blinding,
            g_vec,
            a_l.as_slice(),
            h_vec,
            a_r.as_slice(),
        );
        let a_o_pt = blinded_product(
            &gens.b_blinding,
            blindings.o_blinding,
            g_vec,
            a_o.as_slice(),
            empty_points.as_slice(),
            empty_scalars.as_slice(),
        );
        let s_pt = blinded_product(
            &gens.b_blinding,
            blindings.s_blinding,
            g_vec,
            blindings.s_l.as_slice(),
            h_vec,
            blindings.s_r.as_slice(),
        );
        proof {
            let bb = seq![gens.b_blinding@];
            let e = gouts(empty_points@);
            let f = fps(empty_scalars@);
            assert(bb + g + e =~= bb + g);
            assert(seq![bl.o] + fps(a_o@) + f =~= seq![bl.o] + fps(a_o@));
            assert(gouts_in_group(e));
            reveal_with_fuel(sigma, 1);
            assert(dot(gout_logs(e), f) == 0);
            assert((a_i_pt@, a_o_pt@, s_pt@) == wire_commitments(*gens, w, bl, n as nat));
        }
        TranscriptExt::append_u64(&mut transcript, "m".as_bytes(), m as u64);
        transcript.append_gout("A_I".as_bytes(), &a_i_pt);
        transcript.append_gout("A_O".as_bytes(), &a_o_pt);
        transcript.append_gout("S".as_bytes(), &s_pt);
        let ghost log1 = commit_log(log0, c.n_committed, a_i_pt@, a_o_pt@, s_pt@);
        assert(transcript_log(transcript) == log1);
        let y = transcript.challenge_fp("y".as_bytes());
        let z = transcript.challenge_fp("z".as_bytes());
        let y_inv = match y.inverse() {
            Some(v) => v,
            None => {
                return Err(String::from_str("zero challenge"));
            },
        };
        proof {
            lemma_fp_order();
            lemma_mod_reduced(1, fp_order());
            lemma_inv_unique(y@, y_inv@);
            crate::lagrange::lemma_inv(y@);
            lemma_fp_range(y_inv);
            lemma_cong_small(inv(y@), y_inv@, fp_order());
        }
        // The polynomials l(x), r(x) and t(x).
        proof {
            assert forall|q: int| 0 <= q < self.constraints@.len() implies lc_in(
                (#[trigger] self.constraints@[q])@,
                n as nat,
                m as nat,
            ) by {
                assert(lc_in(c.constraints[q], c.n_mul, c.n_committed));
                lemma_lc_in_more(c.constraints[q], c.n_mul, c.n_committed, n as nat, m as nat);
            }
        }
        let fl = flatten(self.constraints.as_slice(), n, m, z);
        let y_pows = powers(y, n);
        let y_inv_pows = powers(y_inv, n);
        let ghost k = prover_vectors(c, w, bl, n as nat, y@, z@);
        proof {
            lemma_public(fl, y_pows@, y_inv_pows@, c, n as nat, y@, z@);
        }
        let (l_poly, r_poly) = vector_polys(
            a_l.as_slice(),
            a_r.as_slice(),
            a_o.as_slice(),
            blindings.s_l.as_slice(),
            blindings.s_r.as_slice(),
            &fl,
            y_pows.as_slice(),
            y_inv_pows.as_slice(),
        );
        proof {
            lemma_poly_views(
                l_poly,
                r_poly,
                a_l@,
                a_r@,
                a_o@,
                blindings.s_l@,
                blindings.s_r@,
                fl,
                y_pows@,
                y_inv_pows@,
                k,
                n as nat,
            );
            lemma_polys(l_poly, r_poly, k, n as nat);
        }
        let t_poly_ = l_poly.inner_product(&r_poly);
        assert(t_poly_@ == t_poly(k, n as nat));
        let t_1 = pedersen_commit(&gens.b, &gens.b_blinding, &t_poly_.t1, &blindings.t_1);
        let t_3 = pedersen_commit(&gens.b, &gens.b_blinding, &t_poly_.t3, &blindings.t_3);
        let t_4 = pedersen_commit(&gens.b, &gens.b_blinding, &t_poly_.t4, &blindings.t_4);
        let t_5 = pedersen_commit(&gens.b, &gens.b_blinding, &t_poly_.t5, &blindings.t_5);
        let t_6 = pedersen_commit(&gens.b, &gens.b_blinding, &t_poly_.t6, &blindings.t_6);
        transcript.append_gout("T_1".as_bytes(), &t_1);
        transcript.append_gout("T_3".as_bytes(), &t_3);
        transcript.append_gout("T_4".as_bytes(), &t_4);
        transcript.append_gout("T_5".as_bytes(), &t_5);
        transcript.append_gout("T_6".as_bytes(), &t_6);
        let ghost log2 = poly_log(log1, t_1@, t_3@, t_4@, t_5@, t_6@);
        assert(transcript_log(transcript) == log2);
        let _u = transcript.challenge_fp("u".as_bytes());
        let x = transcript.challenge_fp("x".as_bytes());
        // Evaluate at x.
        let t_2_blinding = inner_product(fl.w_v.as_slice(), self.v_blindings.as_slice());
        let t_blinding_poly = Poly6 {
            t1: blindings.t_1,
            t2: t_2_blinding,
            t3: blindings.t_3,
            t4: blindings.t_4,
            t5: blindings.t_5,
            t6: blindings.t_6,
        };
        let t_x = t_poly_.eval(x);
        let t_x_blinding = t_blinding_poly.eval(x);
        let l_vec = l_poly.eval(x);
        let r_vec = r_poly.eval(x);
        let e_blinding = eval_e(x, blindings.i_blinding, blindings.o_blinding, blindings.s_blinding);
        proof {
            assert(fps(l_vec@) =~= l_seq(k, n as nat, x@));
            assert(fps(r_vec@) =~= r_seq(k, n as nat, x@));
        }
        transcript.append_fp("t_x".as_bytes(), &t_x);
        transcript.append_fp("t_x_blinding".as_bytes(), &t_x_blinding);
        transcript.append_fp("e_blinding".as_bytes(), &e_blinding);
        let ghost log3 = open_log(log2, t_x@, t_x_blinding@, e_blinding@);
        assert(transcript_log(transcript) == log3);
        // The inner-product argument for l(x), r(x).
        let w_ch = transcript.challenge_fp("w".as_bytes());
        let q = gens.b.times(&w_ch);
        let g_factors = one_vec(n);
        let made = InnerProductProof::try_create(
            &mut transcript,
            &q,
            g_factors.as_slice(),
            y_inv_pows.as_slice(),
            g_vec,
            h_vec,
            l_vec.as_slice(),
            r_vec.as_slice(),
        );
        let ipp = match made {
            Some(p) => p,
            None => {
                return Err(String::from_str("zero challenge"));
            },
        };
        let p = R1CSProof {
            a_i: a_i_pt,
            a_o: a_o_pt,
            s: s_pt,
            t_1,
            t_3,
            t_4,
            t_5,
            t_6,
            t_x,
            t_x_blinding,
            e_blinding,
            ipp,
        };
        proof {
            let start = ipa_start(
                rounds_start(log3),
                ones(n as nat),
                k.v,
                g,
                h,
                l_seq(k, n as nat, x@),
                r_seq(k, n as nat, x@),
            );
            let end = ipa_run(q@, start)->Some_0;
            assert(seq![p.ipp.a@][0] == end.a[0]);
            assert(seq![p.ipp.b@][0] == end.b[0]);
            assert(honest_proof(*gens, log0, c, w, gammas, bl) == Some(p@));
            if gens.in_group() {
                let e = gout_log(gens.b@) * w_ch@;
                lemma_gout_log(q@, e % fp_order());
                lemma_cong_mod(e, fp_order());
            }
        }
        Ok(p)
    }
}

/// There is one blinding factor for every gate of the padded circuit.
pub open spec fn blindings_fit(bl: BlindingsView, n: nat) -> bool {
    bl.s_l.len() == n && bl.s_r.len() == n
}

fn random_vec(n: usize, rng: &mut StdRng) -> (r: Vec<Fp>)
    ensures
        r@.len() == n,
{
    let mut out: Vec<Fp> = Vec::with_capacity(n);
    while out.len() < n
        invariant
            out@.len() <= n,
        decreases n - out@.len(),
    {
        out.push(Fp::rand(rng));
    }
    out
}

impl Blindings {
    /// Random blinding factors for `n` gates.
    fn random(n: usize, rng: &mut StdRng) -> (r: Blindings)
        ensures
            blindings_fit(r@, n as nat),
    {
        let i_blinding = Fp::rand(rng);
        let o_blinding = Fp::rand(rng);
        let s_blinding = Fp::rand(rng);
        let s_l = random_vec(n, rng);
        let s_r = random_vec(n, rng);
        let t_1 = Fp::rand(rng);
        let t_3 = Fp::rand(rng);
        let t_4 = Fp::rand(rng);
        let t_5 = Fp::rand(rng);
        let t_6 = Fp::rand(rng);
        Blindings { i_blinding, o_blinding, s_blinding, s_l, s_r, t_1, t_3, t_4, t_5, t_6 }
    }
}

impl<'g> Prover<'g> {
    /// The proof for the circuit so far, with random blinding factors.
    pub fn prove(self, rng: &mut StdRng) -> (res: Result<R1CSProof, String>)
        requires
            self.well_formed(),
            self.context().gens.well_formed(),
            pad_len(self.circuit().n_mul) <= usize::MAX,
        ensures
            ({
                let (cx, c, w) = (self.context(), self.circuit(), self.values()->Some_0);
                let n = pad_len(c.n_mul);
                if n > cx.gens.gens_capacity {
                    res matches Err(e) && e@ == too_large(n, cx.gens.gens_capacity as nat)
                } else {
                    match res {
                        Ok(p) => exists|bl: BlindingsView|
                            blindings_fit(bl, n) && #[trigger] proof_made(
                                cx.gens,
                                cx.log,
                                c,
                                w,
                                cx.blindings,
                                bl,
                                p,
                            ),
                        Err(e) => e@ == "zero challenge"@ && exists|bl: BlindingsView|
                            blindings_fit(bl, n) && #[trigger] honest_proof(
                                cx.gens,
                                cx.log,
                                c,
                                w,
                                cx.blindings,
                                bl,
                            ) is None,
                    }
                }
            }),
    {
        let n = padded_len(self.assignments.a_l.len());
        if n > self.gens.gens_capacity {
            return Err(too_large_message(n, self.gens.gens_capacity));
        }
        let blindings = Blindings::random(n, rng);
        self.prove_with(&blindings)
    }
}

/// `x·i + x²·o + x³·s`.
fn eval_e(x: Fp, i: Fp, o: Fp, s: Fp) -> (r: Fp)
    ensures
        r@ == (x@ * i@ + (x@ * x@) * o@ + ((x@ * x@) * x@) * s@) % fp_order(),
{
    let e = x * s;
    let f = o + e;
    let g = x * f;
    let h = i + g;
    let r = x * h;
    proof {
        let (i, o, s, x) = (i@, o@, s@, x@);
        lemma_mod_sum(o, x * s);
        lemma_mod_product(x, o + x * s);
        lemma_mod_sum(i, x * (o + x * s));
        lemma_mod_product(x, i + x * (o + x * s));
        let a = x * s;
        let b = o + a;
        let d = x * b;
        assert(x * (i + d) == x * i + x * d) by (nonlinear_arith);
        assert(x * (x * b) == (x * x) * b) by (nonlinear_arith);
        let xx = x * x;
        assert(xx * (o + a) == xx * o + xx * a) by (nonlinear_arith);
        assert(xx * (x * s) == (xx * x) * s) by (nonlinear_arith);
    }
    r
}

/// The vectors that [`vector_polys`] computes, in terms of [`Vectors`].
proof fn lemma_poly_views(
    l: VecPoly3,
    r: VecPoly3,
    a_l: Seq<Fp>,
    a_r: Seq<Fp>,
    a_o: Seq<Fp>,
    s_l: Seq<Fp>,
    s_r: Seq<Fp>,
    fl: FlattenedConstraints,
    y_pows: Seq<Fp>,
    y_inv_pows: Seq<Fp>,
    k: Vectors,
    n: nat,
)
    requires
        l.sized(n),
        r.sized(n),
        a_l.len() == n,
        a_r.len() == n,
        a_o.len() == n,
        s_l.len() == n,
        s_r.len() == n,
        fl.w_l@.len() == n,
        fl.w_r@.len() == n,
        fl.w_o@.len() == n,
        y_pows.len() == n,
        y_inv_pows.len() == n,
        k.a_l == fps(a_l),
        k.a_r == fps(a_r),
        k.a_o == fps(a_o),
        k.s_l == fps(s_l),
        k.s_r == fps(s_r),
        k.w_l == fps(fl.w_l@),
        k.w_r == fps(fl.w_r@),
        k.w_o == fps(fl.w_o@),
        k.y == fps(y_pows),
        k.v == fps(y_inv_pows),
        forall|i: int|
            0 <= i < n ==> (#[trigger] l.t1@[i])@ == (a_l[i]@ + y_inv_pows[i]@ * fl.w_r@[i]@)
                % fp_order(),
        l.t2@ == a_o,
        l.t3@ == s_l,
        forall|i: int|
            0 <= i < n ==> (#[trigger] r.t0@[i])@ == (fl.w_o@[i]@ - y_pows[i]@) % fp_order(),
        forall|i: int|
            0 <= i < n ==> (#[trigger] r.t1@[i])@ == (y_pows[i]@ * a_r[i]@ + fl.w_l@[i]@)
                % fp_order(),
        forall|i: int|
            0 <= i < n ==> (#[trigger] r.t3@[i])@ == (y_pows[i]@ * s_r[i]@) % fp_order(),
    ensures
        fps(l.t1@) == l_1(k, n),
        fps(r.t0@) == r_0(k, n),
        fps(r.t1@) == r_1(k, n),
        fps(r.t3@) == r_3(k, n),
{
    assert(fps(l.t1@) =~= l_1(k, n));
    assert(fps(r.t0@) =~= r_0(k, n));
    assert(fps(r.t1@) =~= r_1(k, n));
    assert(fps(r.t3@) =~= r_3(k, n));
}

/// Wires that exist in a system exist in a larger one.
pub proof fn lemma_lc_in_more(lc: Lc, n: nat, m: nat, n2: nat, m2: nat)
    requires
        lc_in(lc, n, m),
        n <= n2,
        m <= m2,
    ensures
        lc_in(lc, n2, m2),
{
    assert forall|k: int| 0 <= k < lc.len() implies var_in((#[trigger] lc[k]).0, n2, m2) by {
        assert(var_in(lc[k].0, n, m));
    }
}

impl<'g> ConstraintSystem for Prover<'g> {
    closed spec fn context(&self) -> Context {
        Context {
            gens: *self.gens,
            log: transcript_log(self.transcript),
            blindings: fps(self.v_blindings@),
            commitments: Seq::empty(),
        }
    }

    closed spec fn circuit(&self) -> Circuit {
        Circuit {
            n_mul: self.assignments.a_l@.len(),
            n_committed: self.assignments.v@.len(),
            constraints: lcs(self.constraints@),
        }
    }

    closed spec fn values(&self) -> Option<Values> {
        Some(self.assignments@)
    }

    closed spec fn well_formed(&self) -> bool {
        &&& self.assignments.a_l@.len() == self.assignments.a_r@.len()
        &&& self.assignments.a_l@.len() == self.assignments.a_o@.len()
        &&& self.v_blindings@.len() == self.assignments.v@.len()
        &&& gates_hold(self.assignments@)
        &&& circuit_ok(self.circuit())
    }

    proof fn lemma_well_formed(&self) {
        assert forall|a: Fp| 0 <= #[trigger] a@ < fp_order() by {
            lemma_fp_range(a);
        }
    }

    fn multiply(&mut self, left: LinearCombination, right: LinearCombination) -> (r: (
        Variable,
        Variable,
        Variable,
    )) {
        let ghost c0 = self.circuit();
        let ghost w0 = self.assignments@;
        let l = self.assignments.eval(&left);
        let r = self.assignments.eval(&right);
        let (vl, vr, vo) = self.alloc_mul(l, r);
        let ll = left - vl;
        let rr = right - vr;
        proof {
            lemma_lc_in_more(left@, c0.n_mul, c0.n_committed, c0.n_mul + 1, c0.n_committed);
            lemma_lc_in_more(right@, c0.n_mul, c0.n_committed, c0.n_mul + 1, c0.n_committed);
        }
        self.constrain(ll);
        self.constrain(rr);
        (vl, vr, vo)
    }

    fn allocate_multiplier(&mut self, assignment: Option<(Fp, Fp)>) -> (r: Result<
        (Variable, Variable, Variable),
        String,
    >) {
        match assignment {
            Some((l, r)) => Ok(self.alloc_mul(l, r)),
            None => Err(String::from_str("prover requires assignment")),
        }
    }

    fn constrain(&mut self, lc: LinearCombination) {
        let ghost c0 = self.circuit();
        let ghost l = lc@;
        self.constraints.push(lc);
        proof {
            assert(lcs(self.constraints@) =~= c0.constraints.push(l));
            assert forall|q: int| 0 <= q < self.circuit().constraints.len() implies lc_in(
                #[trigger] self.circuit().constraints[q],
                self.circuit().n_mul,
                self.circuit().n_committed,
            ) by {
                if q < c0.constraints.len() {
                    assert(lc_in(c0.constraints[q], c0.n_mul, c0.n_committed));
                }
            }
        }
    }

    fn num_multipliers(&self) -> (r: usize) {
        self.assignments.a_l.len()
    }

    fn eval(&self, lc: &LinearCombination) -> (r: Option<Fp>) {
        Some(self.assignments.eval(lc))
    }
}

// ─── verifier ───────────────────────────────────────────────────────────────

/// Builds the circuit without values, and verifies proofs for it.
pub struct Verifier<'g> {
    gens: &'g BpGens,
    transcript: Transcript,
    constraints: Vec<LinearCombination>,
    n_mul: usize,
    v_commitments: Vec<GoutAffine>,
}

impl<'g> Verifier<'g> {
    pub fn new(gens: &'g BpGens, transcript: Transcript) -> (r: Self)
        ensures
            r.well_formed(),
            r.context() == start_context(*gens, transcript_log(transcript)),
            r.circuit() == (Circuit { n_mul: 0, n_committed: 0, constraints: Seq::empty() }),
            r.values() is None,
    {
        let mut transcript = transcript;
        append_label(&mut transcript);
        let r = Verifier {
            gens,
            transcript,
            constraints: Vec::new(),
            n_mul: 0,
            v_commitments: Vec::new(),
        };
        proof {
            assert(gouts(r.v_commitments@) =~= Seq::<GoutPoint>::empty());
            assert(lcs(r.constraints@) =~= Seq::empty());
        }
        r
    }

    /// Registers the commitment to a committed value. The order must be that of the
    /// prover's commitments.
    pub fn commit(&mut self, v: GoutAffine) -> (r: Variable)
        requires
            old(self).well_formed(),
        ensures
            final(self).well_formed(),
            r == Variable::Committed(old(self).circuit().n_committed as usize),
            final(self).context() == (Context {
                log: old(self).context().log.push(ev_gout("V".spec_bytes(), v@)),
                commitments: old(self).context().commitments.push(v@),
                ..old(self).context()
            }),
            final(self).circuit() == (Circuit {
                n_committed: old(self).circuit().n_committed + 1,
                ..old(self).circuit()
            }),
            final(self).values() is None,
    {
        let ghost v0 = self.v_commitments@;
        let ghost c0 = self.circuit();
        let i: usize = self.v_commitments.len();
        self.v_commitments.push(v);
        self.transcript.append_gout("V".as_bytes(), &v);
        proof {
            assert(gouts(self.v_commitments@) =~= gouts(v0).push(v@));
            assert forall|q: int| 0 <= q < self.circuit().constraints.len() implies lc_in(
                #[trigger] self.circuit().constraints[q],
                self.circuit().n_mul,
                self.circuit().n_committed,
            ) by {
                assert(lc_in(c0.constraints[q], c0.n_mul, c0.n_committed));
                lemma_lc_in_more(
                    c0.constraints[q],
                    c0.n_mul,
                    c0.n_committed,
                    c0.n_mul,
                    c0.n_committed + 1,
                );
            }
        }
        Variable::Committed(i)
    }

    fn next(&mut self) -> (r: (Variable, Variable, Variable))
        requires
            old(self).well_formed(),
            old(self).circuit().n_mul < usize::MAX,
        ensures
            final(self).well_formed(),
            final(self).context() == old(self).context(),
            r == next_gate(old(self).circuit()),
            final(self).circuit() == with_gate(old(self).circuit()),
    {
        let ghost c0 = self.circuit();
        let i: usize = self.n_mul;
        self.n_mul = self.n_mul + 1;
        proof {
            assert forall|q: int| 0 <= q < self.circuit().constraints.len() implies lc_in(
                #[trigger] self.circuit().constraints[q],
                self.circuit().n_mul,
                self.circuit().n_committed,
            ) by {
                assert(lc_in(c0.constraints[q], c0.n_mul, c0.n_committed));
                lemma_lc_in_more(c0.constraints[q], c0.n_mul, c0.n_committed, c0.n_mul + 1, c0.n_committed);
            }
        }
        (
            Variable::MultiplierLeft(i),
            Variable::MultiplierRight(i),
            Variable::MultiplierOutput(i),
        )
    }
}

impl<'g> ConstraintSystem for Verifier<'g> {
    closed spec fn context(&self) -> Context {
        Context {
            gens: *self.gens,
            log: transcript_log(self.transcript),
            blindings: Seq::empty(),
            commitments: gouts(self.v_commitments@),
        }
    }

    closed spec fn circuit(&self) -> Circuit {
        Circuit {
            n_mul: self.n_mul as nat,
            n_committed: self.v_commitments@.len(),
            constraints: lcs(self.constraints@),
        }
    }

    open spec fn values(&self) -> Option<Values> {
        None
    }

    closed spec fn well_formed(&self) -> bool {
        circuit_ok(self.circuit())
    }

    proof fn lemma_well_formed(&self) {
    }

    fn multiply(&mut self, left: LinearCombination, right: LinearCombination) -> (r: (
        Variable,
        Variable,
        Variable,
    )) {
        let ghost c0 = self.circuit();
        let (vl, vr, vo) = self.next();
        let ll = left - vl;
        let rr = right - vr;
        proof {
            lemma_lc_in_more(left@, c0.n_mul, c0.n_committed, c0.n_mul + 1, c0.n_committed);
            lemma_lc_in_more(right@, c0.n_mul, c0.n_committed, c0.n_mul + 1, c0.n_committed);
        }
        self.constrain(ll);
        self.constrain(rr);
        (vl, vr, vo)
    }

    fn allocate_multiplier(&mut self, assignment: Option<(Fp, Fp)>) -> (r: Result<
        (Variable, Variable, Variable),
        String,
    >) {
        Ok(self.next())
    }

    fn constrain(&mut self, lc: LinearCombination) {
        let ghost c0 = self.circuit();
        let ghost l = lc@;
        self.constraints.push(lc);
        proof {
            assert(lcs(self.constraints@) =~= c0.constraints.push(l));
            assert forall|q: int| 0 <= q < self.circuit().constraints.len() implies lc_in(
                #[trigger] self.circuit().constraints[q],
                self.circuit().n_mul,
                self.circuit().n_committed,
            ) by {
                if q < c0.constraints.len() {
                    assert(lc_in(c0.constraints[q], c0.n_mul, c0.n_committed));
                }
            }
        }
    }

    fn num_multipliers(&self) -> (r: usize) {
        self.n_mul
    }

    fn eval(&self, lc: &LinearCombination) -> (r: Option<Fp>) {
        None
    }
}

// ─── verification ───────────────────────────────────────────────────────────

/// `(a·b)·c` as it is computed.
proof fn lemma_mul3(a: int, b: int, c: int)
    ensures
        (((a * b) % fp_order()) * c) % fp_order() == (a * (b * c)) % fp_order(),
{
    lemma_mod_product(a * b, c);
    assert((a * b) * c == a * (b * c)) by (nonlinear_arith);
}

/// What a proof is checked by: the coefficients of one product over the generators
/// and some more points, which has to be the identity.
#[derive(Clone, Debug)]
pub struct VerificationCheck {
    /// Coefficients of `G[0..n]`.
    pub g_scalars: Vec<Fp>,
    /// Coefficients of `H[0..n]`.
    pub h_scalars: Vec<Fp>,
    /// Coefficient of `B`.
    pub b_scalar: Fp,
    /// Coefficient of the blinding base.
    pub b_blinding_scalar: Fp,
    /// The points that are not generators.
    pub points: Vec<GoutAffine>,
    /// Coefficients of `points`.
    pub scalars: Vec<Fp>,
    /// Digest of the transcript that the coefficients come from.
    pub digest: Vec<u8>,
}

impl View for VerificationCheck {
    type V = CheckView;

    open spec fn view(&self) -> CheckView {
        CheckView {
            g: fps(self.g_scalars@),
            h: fps(self.h_scalars@),
            b: self.b_scalar@,
            b_blinding: self.b_blinding_scalar@,
            points: gouts(self.points@),
            scalars: fps(self.scalars@),
            digest: self.digest@,
        }
    }
}

/// The scalars of the bases `G`.
fn g_scalars(x: Fp, a: Fp, y_inv_pows: &[Fp], w_r: &[Fp], s: &[Fp]) -> (r: Vec<Fp>)
    requires
        w_r@.len() == y_inv_pows@.len(),
        s@.len() == y_inv_pows@.len(),
    ensures
        r@.len() == s@.len(),
        forall|i: int|
            0 <= i < r@.len() ==> (#[trigger] r@[i])@ == (x@ * (y_inv_pows@[i]@ * w_r@[i]@) - a@
                * s@[i]@) % fp_order(),
{
    let mut out: Vec<Fp> = Vec::with_capacity(s.len());
    let mut i: usize = 0;
    while i < s.len()
        invariant
            i <= s@.len(),
            w_r@.len() == s@.len(),
            y_inv_pows@.len() == s@.len(),
            out@.len() == i,
            forall|k: int|
                0 <= k < i ==> (#[trigger] out@[k])@ == (x@ * (y_inv_pows@[k]@ * w_r@[k]@) - a@
                    * s@[k]@) % fp_order(),
        decreases s@.len() - i,
    {
        let e = x * y_inv_pows[i] * w_r[i];
        let f = a * s[i];
        let g = e - f;
        proof {
            let (v, w, t) = (y_inv_pows@[i as int]@, w_r@[i as int]@, s@[i as int]@);
            lemma_mul3(x@, v, w);
            lemma_mod_sum(x@ * (v * w) - a@ * t, 0);
            lemma_fp_order();
            lemma_cong_mod(x@ * (v * w), fp_order());
            lemma_cong_mod(a@ * t, fp_order());
            lemma_cong_sub(e@, x@ * (v * w), f@, a@ * t, fp_order());
        }
        out.push(g);
        i = i + 1;
    }
    out
}

/// The scalars of the bases `H`.
fn h_scalars(
    x: Fp,
    b: Fp,
    y_pows: &[Fp],
    y_inv_pows: &[Fp],
    w_l: &[Fp],
    w_o: &[Fp],
    s: &[Fp],
) -> (r: Vec<Fp>)
    requires
        y_pows@.len() == s@.len(),
        y_inv_pows@.len() == s@.len(),
        w_l@.len() == s@.len(),
        w_o@.len() == s@.len(),
    ensures
        r@.len() == s@.len(),
        forall|i: int|
            0 <= i < r@.len() ==> (#[trigger] r@[i])@ == (y_inv_pows@[i]@ * (x@ * w_l@[i]@
                + w_o@[i]@ - y_pows@[i]@ - b@ * s@[i]@)) % fp_order(),
{
    let mut out: Vec<Fp> = Vec::with_capacity(s.len());
    let mut i: usize = 0;
    while i < s.len()
        invariant
            i <= s@.len(),
            y_pows@.len() == s@.len(),
            y_inv_pows@.len() == s@.len(),
            w_l@.len() == s@.len(),
            w_o@.len() == s@.len(),
            out@.len() == i,
            forall|k: int|
                0 <= k < i ==> (#[trigger] out@[k])@ == (y_inv_pows@[k]@ * (x@ * w_l@[k]@
                    + w_o@[k]@ - y_pows@[k]@ - b@ * s@[k]@)) % fp_order(),
        decreases s@.len() - i,
    {
        let e1 = x * w_l[i];
        let e2 = e1 + w_o[i];
        let e3 = e2 - y_pows[i];
        let e4 = b * s[i];
        let e5 = e3 - e4;
        let e6 = y_inv_pows[i] * e5;
        proof {
            let m = fp_order();
            lemma_fp_order();
            let (wl, wo, y, t, v) = (
                w_l@[i as int]@,
                w_o@[i as int]@,
                y_pows@[i as int]@,
                s@[i as int]@,
                y_inv_pows@[i as int]@,
            );
            lemma_mod_sum(x@ * wl, wo);
            lemma_cong_mod(x@ * wl + wo, m);
            lemma_cong_sub(e2@, x@ * wl + wo, y, y, m);
            lemma_cong_mod(x@ * wl + wo - y, m);
            lemma_cong_mod(b@ * t, m);
            lemma_cong_sub(e3@, x@ * wl + wo - y, e4@, b@ * t, m);
            lemma_mod_product(v, x@ * wl + wo - y - b@ * t);
        }
        out.push(e6);
        i = i + 1;
    }
    out
}

/// `δ(y, z) = ⟨y^{-n}∘w_R, w_L⟩`.
fn delta_sum(y_inv_pows: &[Fp], w_r: &[Fp], w_l: &[Fp]) -> (r: Fp)
    requires
        w_r@.len() == y_inv_pows@.len(),
        w_l@.len() == y_inv_pows@.len(),
    ensures
        r@ == sigma(
            w_l@.len(),
            |i: int| (fps(y_inv_pows@)[i] * fps(w_r@)[i]) * fps(w_l@)[i],
        ) % fp_order(),
{
    let ghost f = |i: int| (fps(y_inv_pows@)[i] * fps(w_r@)[i]) * fps(w_l@)[i];
    let mut acc = Fp::zero();
    let mut i: usize = 0;
    proof {
        lemma_fp_order();
        lemma_mod_reduced(0, fp_order());
    }
    while i < w_l.len()
        invariant
            i <= w_l@.len(),
            w_r@.len() == w_l@.len(),
            y_inv_pows@.len() == w_l@.len(),
            f == (|i: int| (fps(y_inv_pows@)[i] * fps(w_r@)[i]) * fps(w_l@)[i]),
            acc@ == sigma(i as nat, f) % fp_order(),
        decreases w_l@.len() - i,
    {
        let e = y_inv_pows[i] * w_r[i] * w_l[i];
        acc = acc + e;
        proof {
            let (v, a, b) = (y_inv_pows@[i as int]@, w_r@[i as int]@, w_l@[i as int]@);
            lemma_mod_product(v * a, b);
            lemma_mod_sum(sigma(i as nat, f), f(i as int));
        }
        i = i + 1;
    }
    acc
}

/// The scalars of the committed values.
fn committed_scalars(w_v: &[Fp], x: Fp, r_chal: Fp) -> (r: Vec<Fp>)
    ensures
        fps(r@) == v_scalars(fps(w_v@), x@, r_chal@),
{
    let xx = x.square();
    let mut out: Vec<Fp> = Vec::with_capacity(w_v.len());
    let mut i: usize = 0;
    while i < w_v.len()
        invariant
            i <= w_v@.len(),
            xx@ == (x@ * x@) % fp_order(),
            out@.len() == i,
            forall|k: int|
                0 <= k < i ==> (#[trigger] out@[k])@ == ((r_chal@ * (x@ * x@)) * w_v@[k]@)
                    % fp_order(),
        decreases w_v@.len() - i,
    {
        let e = r_chal * xx * w_v[i];
        proof {
            lemma_mod_product(r_chal@, x@ * x@);
            lemma_mod_product(r_chal@ * (x@ * x@), w_v@[i as int]@);
        }
        out.push(e);
        i = i + 1;
    }
    assert(fps(out@) =~= v_scalars(fps(w_v@), x@, r_chal@));
    out
}

/// The scalars of the commitments to the coefficients of `t(x)`.
fn poly_scalars(x: Fp, r_chal: Fp) -> (r: Vec<Fp>)
    ensures
        fps(r@) == t_scalars(x@, r_chal@),
{
    let xx = x.square();
    let xxx = xx * x;
    let rx3 = r_chal * xxx;
    let e1 = r_chal * x;
    let e4 = rx3 * x;
    let e5 = rx3 * xx;
    let e6 = rx3 * xxx;
    proof {
        let (a, r) = (x@, r_chal@);
        let (x2, x3) = (a * a, (a * a) * a);
        lemma_mod_product(x2, a);
        lemma_mod_product(r, x3);
        lemma_mul3(r, x3, a);
        lemma_mod_product(r * x3, a);
        lemma_mod_product(r * x3, x2);
        lemma_mod_product(r * x3, x3);
        assert((r * x3) * a == r * (x3 * a)) by (nonlinear_arith);
        assert((r * x3) * x2 == r * (x3 * x2)) by (nonlinear_arith);
        assert((r * x3) * x3 == r * (x3 * x3)) by (nonlinear_arith);
    }
    let mut out: Vec<Fp> = Vec::new();
    out.push(e1);
    out.push(rx3);
    out.push(e4);
    out.push(e5);
    out.push(e6);
    assert(fps(out@) =~= t_scalars(x@, r_chal@));
    out
}

/// `w·(t_x − a·b) + r·(x²·(δ + w_c) − t_x)`.
fn b_coefficient(w: Fp, t_x: Fp, a: Fp, b: Fp, r_chal: Fp, x: Fp, delta: Fp, w_c: Fp) -> (r: Fp)
    ensures
        r@ == (w@ * (t_x@ - a@ * b@) + r_chal@ * ((x@ * x@) * (delta@ + w_c@) - t_x@)) % fp_order(),
{
    let ab = a * b;
    let d1 = t_x - ab;
    let p1 = w * d1;
    let xx = x.square();
    let s1 = delta + w_c;
    let p2 = xx * s1;
    let d2 = p2 - t_x;
    let p3 = r_chal * d2;
    let r = p1 + p3;
    proof {
        let m = fp_order();
        lemma_fp_order();
        lemma_mod_sum(t_x@, a@ * b@);
        lemma_mod_product(w@, t_x@ - a@ * b@);
        lemma_mod_product(x@ * x@, delta@ + w_c@);
        let e = (x@ * x@) * (delta@ + w_c@);
        lemma_cong_mod(e, m);
        lemma_cong_sub(p2@, e, t_x@, t_x@, m);
        lemma_mod_product(r_chal@, e - t_x@);
        lemma_mod_sum(w@ * (t_x@ - a@ * b@), r_chal@ * (e - t_x@));
    }
    r
}

impl<'g> Verifier<'g> {
    /// The check that a proof has to pass, without its product being computed, so
    /// that several checks can be combined by [`verify_batch`].
    #[verifier::spinoff_prover]
    #[verifier::rlimit(60)]
    pub fn collect_check(self, proof: &R1CSProof) -> (res: Result<VerificationCheck, String>)
        requires
            self.well_formed(),
            self.context().gens.well_formed(),
            pad_len(self.circuit().n_mul) <= usize::MAX,
            rounds_fit(proof.ipp.l_vec@.len(), pad_len(self.circuit().n_mul))
                ==> proof.ipp.r_vec@.len() >= proof.ipp.l_vec@.len(),
        ensures
            ({
                let (cx, c) = (self.context(), self.circuit());
                let n = pad_len(c.n_mul);
                if n > cx.gens.gens_capacity {
                    res matches Err(e) && e@ == too_large(n, cx.gens.gens_capacity as nat)
                } else {
                    match check_of(cx.log, c, cx.commitments, proof@) {
                        None => res matches Err(e) && e@ == "zero challenge"@,
                        Some(v) => if rounds_fit(proof.ipp.l_vec@.len(), n) {
                            res matches Ok(check) && check@ == v && check_fits(cx.gens, v)
                                && v.digest.len() == 32
                        } else {
                            res matches Err(e) && e@ == length_mismatch(
                                proof.ipp.l_vec@.len(),
                                n,
                            )
                        },
                    }
                }
            }),
    {
        let gens = self.gens;
        let mut transcript = self.transcript;
        let ghost log0 = transcript_log(transcript);
        let ghost (c, commitments, p) = (self.circuit(), gouts(self.v_commitments@), proof@);
        let ghost ch = challenges(log0, c.n_committed, p);
        let n = padded_len(self.n_mul);
        if n > gens.gens_capacity {
            return Err(too_large_message(n, gens.gens_capacity));
        }
        proof {
            lemma_pad_len(c.n_mul);
            self.lemma_well_formed();
        }
        let m: usize = self.v_commitments.len();
        TranscriptExt::append_u64(&mut transcript, "m".as_bytes(), m as u64);
        transcript.append_gout("A_I".as_bytes(), &proof.a_i);
        transcript.append_gout("A_O".as_bytes(), &proof.a_o);
        transcript.append_gout("S".as_bytes(), &proof.s);
        let ghost log1 = commit_log(log0, c.n_committed, p.a_i, p.a_o, p.s);
        assert(transcript_log(transcript) == log1);
        let y = transcript.challenge_fp("y".as_bytes());
        let z = transcript.challenge_fp("z".as_bytes());
        proof {
            assert forall|q: int| 0 <= q < self.constraints@.len() implies lc_in(
                (#[trigger] self.constraints@[q])@,
                n as nat,
                m as nat,
            ) by {
                assert(lc_in(c.constraints[q], c.n_mul, c.n_committed));
                lemma_lc_in_more(c.constraints[q], c.n_mul, c.n_committed, n as nat, m as nat);
            }
        }
        let fl = flatten(self.constraints.as_slice(), n, m, z);
        transcript.append_gout("T_1".as_bytes(), &proof.t_1);
        transcript.append_gout("T_3".as_bytes(), &proof.t_3);
        transcript.append_gout("T_4".as_bytes(), &proof.t_4);
        transcript.append_gout("T_5".as_bytes(), &proof.t_5);
        transcript.append_gout("T_6".as_bytes(), &proof.t_6);
        let ghost log2 = poly_log(log1, p.t_1, p.t_3, p.t_4, p.t_5, p.t_6);
        assert(transcript_log(transcript) == log2);
        let _u = transcript.challenge_fp("u".as_bytes());
        let x = transcript.challenge_fp("x".as_bytes());
        transcript.append_fp("t_x".as_bytes(), &proof.t_x);
        transcript.append_fp("t_x_blinding".as_bytes(), &proof.t_x_blinding);
        transcript.append_fp("e_blinding".as_bytes(), &proof.e_blinding);
        let ghost log3 = open_log(log2, p.t_x, p.t_x_blinding, p.e_blinding);
        assert(transcript_log(transcript) == log3);
        let w = transcript.challenge_fp("w".as_bytes());
        let y_inv = match y.inverse() {
            Some(v) => v,
            None => {
                return Err(String::from_str("zero challenge"));
            },
        };
        proof {
            lemma_fp_order();
            lemma_mod_reduced(1, fp_order());
            lemma_inv_unique(y@, y_inv@);
            crate::lagrange::lemma_inv(y@);
            lemma_fp_range(y_inv);
            lemma_cong_small(inv(y@), y_inv@, fp_order());
        }
        let y_pows = powers(y, n);
        let y_inv_pows = powers(y_inv, n);
        let ghost k = public_vectors(c.constraints, n as nat, y@, z@);
        proof {
            lemma_public(fl, y_pows@, y_inv_pows@, c, n as nat, y@, z@);
        }
        // The scalars of the inner-product argument.
        let (u_sq, u_inv_sq, s) = match proof.ipp.verification_scalars(n, &mut transcript) {
            Ok(t) => t,
            Err(e) => {
                return Err(e);
            },
        };
        let ghost us = ch.us;
        proof {
            lemma_s_vec_len(us);
            assert(fps(s@).len() == s@.len());
        }
        let s_inv = reversed(s.as_slice());
        assert(s_inv@.len() == fps(s_inv@).len());
        let a = proof.ipp.a;
        let b = proof.ipp.b;
        let delta_ = delta_sum(y_inv_pows.as_slice(), fl.w_r.as_slice(), fl.w_l.as_slice());
        let r_chal = transcript.challenge_fp("r".as_bytes());
        transcript.append_fp("a".as_bytes(), &a);
        transcript.append_fp("b".as_bytes(), &b);
        let mut digest: Vec<u8> = vec![0u8; 32];
        transcript.challenge_bytes("digest".as_bytes(), digest.as_mut_slice());
        // The coefficients.
        let gs = g_scalars(x, a, y_inv_pows.as_slice(), fl.w_r.as_slice(), s.as_slice());
        let hs = h_scalars(
            x,
            b,
            y_pows.as_slice(),
            y_inv_pows.as_slice(),
            fl.w_l.as_slice(),
            fl.w_o.as_slice(),
            s_inv.as_slice(),
        );
        let b_scalar = b_coefficient(w, proof.t_x, a, b, r_chal, x, delta_, fl.w_c);
        let rt = r_chal * proof.t_x_blinding;
        let ne = proof.e_blinding.negate();
        let b_blinding_scalar = ne - rt;
        let mut points: Vec<GoutAffine> = Vec::new();
        let mut scalars: Vec<Fp> = Vec::new();
        let xx = x.square();
        let xxx = xx * x;
        points.push(proof.a_i);
        scalars.push(x);
        points.push(proof.a_o);
        scalars.push(xx);
        points.push(proof.s);
        scalars.push(xxx);
        extend_gouts(&mut points, proof.ipp.l_vec.as_slice());
        extend_fps(&mut scalars, u_sq.as_slice());
        let r_used = slice_subrange(proof.ipp.r_vec.as_slice(), 0, proof.ipp.l_vec.len());
        extend_gouts(&mut points, r_used);
        extend_fps(&mut scalars, u_inv_sq.as_slice());
        extend_gouts(&mut points, self.v_commitments.as_slice());
        let vs = committed_scalars(fl.w_v.as_slice(), x, r_chal);
        extend_fps(&mut scalars, vs.as_slice());
        points.push(proof.t_1);
        points.push(proof.t_3);
        points.push(proof.t_4);
        points.push(proof.t_5);
        points.push(proof.t_6);
        let ts = poly_scalars(x, r_chal);
        extend_fps(&mut scalars, ts.as_slice());
        let check = VerificationCheck {
            g_scalars: gs,
            h_scalars: hs,
            b_scalar,
            b_blinding_scalar,
            points,
            scalars,
            digest,
        };
        proof {
            let v = check_of(log0, c, commitments, p)->Some_0;
            assert(check@.g =~= v.g) by {
                assert forall|i: int| 0 <= i < n implies #[trigger] check@.g[i] == v.g[i] by {
                    assert(fps(s@)[i] == s@[i]@);
                    assert(fps(y_inv_pows@)[i] == y_inv_pows@[i]@);
                    assert(fps(fl.w_r@)[i] == fl.w_r@[i]@);
                }
            }
            assert(check@.h =~= v.h) by {
                assert forall|i: int| 0 <= i < n implies #[trigger] check@.h[i] == v.h[i] by {
                    assert(fps(s_inv@)[i] == s_inv@[i]@);
                    assert(fps(y_inv_pows@)[i] == y_inv_pows@[i]@);
                    assert(fps(y_pows@)[i] == y_pows@[i]@);
                    assert(fps(fl.w_l@)[i] == fl.w_l@[i]@);
                    assert(fps(fl.w_o@)[i] == fl.w_o@[i]@);
                }
            }
            lemma_sigma_eq(
                n as nat,
                |i: int| (fps(y_inv_pows@)[i] * fps(fl.w_r@)[i]) * fps(fl.w_l@)[i],
                |i: int| (k.v[i] * k.w_r[i]) * k.w_l[i],
            );
            let d = delta(k, n as nat);
            let wc = w_c(c.constraints, z@);
            assert(delta_@ == d % fp_order());
            assert(fl.w_c@ == wc);
            lemma_b_coefficient(ch.w, p.t_x, p.a, p.b, ch.r, x@, d, wc);
            assert(check@.b == v.b);
            lemma_mod_sum(-p.e_blinding, 0);
            lemma_cong_mod(-p.e_blinding, fp_order());
            lemma_cong_mod(ch.r * p.t_x_blinding, fp_order());
            lemma_cong_sub(ne@, -p.e_blinding, rt@, ch.r * p.t_x_blinding, fp_order());
            assert(check@.b_blinding == v.b_blinding);
            lemma_mod_product(x@ * x@, x@);
            lemma_fp_range(x);
            assert(gouts(r_used@) =~= p.r.take(p.l.len() as int));
            assert(fps(vs@).len() == vs@.len());
            assert(fps(ts@).len() == ts@.len());
            assert(fps(u_sq@).len() == u_sq@.len());
            assert(fps(u_inv_sq@).len() == u_inv_sq@.len());
            assert(check@.points =~= v.points);
            assert(check@.scalars =~= v.scalars);
            assert(check@ =~= v);
        }
        Ok(check)
    }
}

/// `δ` may be reduced before it is used.
proof fn lemma_b_coefficient(w: int, t_x: int, a: int, b: int, r: int, x: int, d: int, wc: int)
    ensures
        (w * (t_x - a * b) + r * ((x * x) * (d % fp_order() + wc) - t_x)) % fp_order() == (w * (t_x
            - a * b) + r * ((x * x) * (d + wc) - t_x)) % fp_order(),
{
    let m = fp_order();
    lemma_fp_order();
    let xx = x * x;
    lemma_cong_mod(d, m);
    lemma_cong_add(d % m, d, wc, wc, m);
    lemma_cong_mul(xx, xx, d % m + wc, d + wc, m);
    lemma_cong_sub(xx * (d % m + wc), xx * (d + wc), t_x, t_x, m);
    lemma_cong_mul(r, r, xx * (d % m + wc) - t_x, xx * (d + wc) - t_x, m);
    let e = w * (t_x - a * b);
    lemma_cong_add(e, e, r * (xx * (d % m + wc) - t_x), r * (xx * (d + wc) - t_x), m);
}

impl VerificationCheck {
    /// Computes the product of the check. It passes exactly where the product is
    /// the identity; for points of the prime-order group, where the exponent is
    /// zero.
    pub fn verify(&self, gens: &BpGens) -> (res: Result<(), String>)
        requires
            gens.well_formed(),
            check_fits(*gens, self@),
        ensures
            res is Ok <==> gout_msm(check_bases(*gens, self@), check_scalars(self@))
                == gout_identity(),
            res matches Err(e) ==> e@ == "R1CS verification failed"@,
            gens.in_group() && gouts_in_group(self@.points) ==> (res is Ok <==> check_vanishes(
                *gens,
                self@,
            )),
    {
        proof {
            assert(self@.g.len() == self.g_scalars@.len());
            assert(self@.h.len() == self.h_scalars@.len());
            assert(self@.points.len() == self.points@.len());
            assert(self@.scalars.len() == self.scalars@.len());
        }
        let (g_vec, h_vec) = gens.share(self.g_scalars.len());
        let mut points: Vec<GoutAffine> = Vec::new();
        let mut scalars: Vec<Fp> = Vec::new();
        points.push(gens.b);
        points.push(gens.b_blinding);
        scalars.push(self.b_scalar);
        scalars.push(self.b_blinding_scalar);
        extend_gouts(&mut points, g_vec);
        extend_fps(&mut scalars, self.g_scalars.as_slice());
        extend_gouts(&mut points, h_vec);
        extend_fps(&mut scalars, self.h_scalars.as_slice());
        extend_gouts(&mut points, self.points.as_slice());
        extend_fps(&mut scalars, self.scalars.as_slice());
        let combined = GoutAffine::msm(points.as_slice(), scalars.as_slice());
        proof {
            let (bs, sc) = (check_bases(*gens, self@), check_scalars(self@));
            assert(gouts(points@) =~= bs);
            assert(fps(scalars@) =~= sc);
            lemma_check_exponent(*gens, self@);
            if gens.in_group() && gouts_in_group(self@.points) {
                let e = dot(gout_logs(bs), sc);
                lemma_fp_order();
                lemma_gout_log(combined@, e % fp_order());
                lemma_gout_eq(combined@, combined@);
                lemma_mod_reduced(0, fp_order());
            }
        }
        if combined.is_zero() {
            Ok(())
        } else {
            Err(String::from_str("R1CS verification failed"))
        }
    }
}

impl<'g> Verifier<'g> {
    /// Verifies a proof for the circuit so far.
    pub fn verify(self, proof: &R1CSProof) -> (res: Result<(), String>)
        requires
            self.well_formed(),
            self.context().gens.well_formed(),
            pad_len(self.circuit().n_mul) <= usize::MAX,
            rounds_fit(proof.ipp.l_vec@.len(), pad_len(self.circuit().n_mul))
                ==> proof.ipp.r_vec@.len() >= proof.ipp.l_vec@.len(),
        ensures
            ({
                let (cx, c) = (self.context(), self.circuit());
                let n = pad_len(c.n_mul);
                if n > cx.gens.gens_capacity {
                    res matches Err(e) && e@ == too_large(n, cx.gens.gens_capacity as nat)
                } else {
                    match check_of(cx.log, c, cx.commitments, proof@) {
                        None => res matches Err(e) && e@ == "zero challenge"@,
                        Some(v) => if rounds_fit(proof.ipp.l_vec@.len(), n) {
                            &&& res is Ok <==> gout_msm(
                                check_bases(cx.gens, v),
                                check_scalars(v),
                            ) == gout_identity()
                            &&& res matches Err(e) ==> e@ == "R1CS verification failed"@
                            &&& cx.gens.in_group() && gouts_in_group(v.points) ==> (res is Ok
                                <==> check_vanishes(cx.gens, v))
                        } else {
                            res matches Err(e) && e@ == length_mismatch(
                                proof.ipp.l_vec@.len(),
                                n,
                            )
                        },
                    }
                }
            }),
    {
        let gens = self.gens;
        match self.collect_check(proof) {
            Ok(check) => check.verify(gens),
            Err(e) => Err(e),
        }
    }
}

// ─── batch verification ─────────────────────────────────────────────────────

/// The views of a list of checks.
pub open spec fn check_views(checks: Seq<VerificationCheck>) -> Seq<CheckView> {
    Seq::new(checks.len(), |i: int| checks[i]@)
}

/// `acc + rho·v`, the shorter one of the two being padded.
fn add_scaled(acc: &[Fp], v: &[Fp], rho: Fp) -> (r: Vec<Fp>)
    ensures
        fps(r@) == scaled_sum(fps(acc@), fps(v@), rho@),
{
    let n: usize = if acc.len() >= v.len() {
        acc.len()
    } else {
        v.len()
    };
    let mut out: Vec<Fp> = Vec::with_capacity(n);
    let mut i: usize = 0;
    while i < n
        invariant
            i <= n,
            n == (if acc@.len() >= v@.len() {
                acc@.len()
            } else {
                v@.len()
            }),
            out@.len() == i,
            forall|k: int|
                0 <= k < i ==> (#[trigger] out@[k])@ == (entry(fps(acc@), k) + rho@ * entry(
                    fps(v@),
                    k,
                )) % fp_order(),
        decreases n - i,
    {
        let a = if i < acc.len() {
            acc[i]
        } else {
            Fp::zero()
        };
        let b = if i < v.len() {
            v[i]
        } else {
            Fp::zero()
        };
        let e = rho * b;
        let f = a + e;
        proof {
            lemma_mod_sum(a@, rho@ * b@);
        }
        out.push(f);
        i = i + 1;
    }
    assert(fps(out@) =~= scaled_sum(fps(acc@), fps(v@), rho@));
    out
}

impl VerificationCheck {
    /// The check with no coefficients.
    fn empty() -> (r: VerificationCheck)
        ensures
            r@ == empty_check(),
    {
        let r = VerificationCheck {
            g_scalars: Vec::new(),
            h_scalars: Vec::new(),
            b_scalar: Fp::zero(),
            b_blinding_scalar: Fp::zero(),
            points: Vec::new(),
            scalars: Vec::new(),
            digest: Vec::new(),
        };
        assert(r@ =~= empty_check());
        r
    }

    /// Adds `rho` times another check.
    fn absorb(&mut self, v: &VerificationCheck, rho: Fp)
        ensures
            final(self)@ == absorbed(old(self)@, v@, rho@),
    {
        let ghost old_view = self@;
        let g = add_scaled(self.g_scalars.as_slice(), v.g_scalars.as_slice(), rho);
        let h = add_scaled(self.h_scalars.as_slice(), v.h_scalars.as_slice(), rho);
        let eb = rho * v.b_scalar;
        let ebb = rho * v.b_blinding_scalar;
        let b = self.b_scalar + eb;
        let bb = self.b_blinding_scalar + ebb;
        proof {
            lemma_mod_sum(self.b_scalar@, rho@ * v.b_scalar@);
            lemma_mod_sum(self.b_blinding_scalar@, rho@ * v.b_blinding_scalar@);
        }
        self.g_scalars = g;
        self.h_scalars = h;
        self.b_scalar = b;
        self.b_blinding_scalar = bb;
        let none: Vec<Fp> = Vec::new();
        let sc = add_scaled(none.as_slice(), v.scalars.as_slice(), rho);
        extend_gouts(&mut self.points, v.points.as_slice());
        extend_fps(&mut self.scalars, sc.as_slice());
        proof {
            assert(fps(none@) =~= Seq::<int>::empty());
            assert(fps(sc@).len() == sc@.len());
            let w = absorbed(old_view, v@, rho@);
            assert(self@.points =~= w.points);
            assert(self@.scalars =~= w.scalars);
            assert(self@ =~= w);
        }
    }
}

/// Verifies several checks with one product: they are added up with weights that
/// come from the digests of all of them, so that the weights are known only when
/// the proofs are fixed, and are the same for everyone.
pub fn verify_batch(gens: &BpGens, checks: &[VerificationCheck]) -> (res: Result<(), String>)
    requires
        gens.well_formed(),
        forall|i: int| 0 <= i < checks@.len() ==> check_fits(*gens, (#[trigger] checks@[i])@),
        forall|i: int| 0 <= i < checks@.len() ==> (#[trigger] checks@[i]).digest@.len() <= u32::MAX,
    ensures
        ({
            let vs = check_views(checks@);
            let v = combined_check(vs, batch_weights(vs));
            &&& checks@.len() == 0 ==> res is Ok
            &&& checks@.len() > 0 ==> (res is Ok <==> gout_msm(
                check_bases(*gens, v),
                check_scalars(v),
            ) == gout_identity())
            &&& res matches Err(e) ==> e@ == "R1CS verification failed"@
            &&& gens.in_group() && gouts_in_group(v.points) ==> (res is Ok <==> check_vanishes(
                *gens,
                v,
            ))
        }),
{
    let ghost vs = check_views(checks@);
    proof {
        reveal_strlit("golden-nidkg/bp-batch/v1");
        is_ascii_spec_bytes("golden-nidkg/bp-batch/v1");
    }
    let mut transcript = Transcript::new("golden-nidkg/bp-batch/v1".as_bytes());
    TranscriptExt::append_u64(&mut transcript, "n".as_bytes(), checks.len() as u64);
    let mut i: usize = 0;
    proof {
        assert(vs.take(0) =~= Seq::empty());
    }
    while i < checks.len()
        invariant
            i <= checks@.len(),
            vs == check_views(checks@),
            transcript_log(transcript) == digests_log(
                batch_start(vs.len()),
                vs.take(i as int),
            ),
            forall|k: int|
                0 <= k < checks@.len() ==> (#[trigger] checks@[k]).digest@.len() <= u32::MAX,
        decreases checks@.len() - i,
    {
        transcript.append_bytes("digest".as_bytes(), checks[i].digest.as_slice());
        proof {
            assert(vs.take(i + 1).drop_last() =~= vs.take(i as int));
            assert(vs.take(i + 1).last() == checks@[i as int]@);
        }
        i = i + 1;
    }
    assert(vs.take(i as int) =~= vs);
    let ghost log = digests_log(batch_start(vs.len()), vs);
    let ghost weights = batch_weights(vs);
    let mut acc = VerificationCheck::empty();
    let mut j: usize = 0;
    proof {
        assert(vs.take(0) =~= Seq::empty());
        lemma_combined_fits(*gens, vs, weights);
    }
    while j < checks.len()
        invariant
            j <= checks@.len(),
            vs == check_views(checks@),
            weights == batch_weights(vs),
            log == digests_log(batch_start(vs.len()), vs),
            transcript_log(transcript) == weight_log(log, j as nat),
            acc@ == combined_check(vs.take(j as int), weights),
        decreases checks@.len() - j,
    {
        let rho = transcript.challenge_fp("rho".as_bytes());
        acc.absorb(&checks[j], rho);
        proof {
            assert(vs.take(j + 1).drop_last() =~= vs.take(j as int));
            assert(vs.take(j + 1).last() == checks@[j as int]@);
            assert(weights[j as int] == rho@);
        }
        j = j + 1;
    }
    proof {
        assert(vs.take(j as int) =~= vs);
        assert forall|k: int| 0 <= k < vs.len() implies check_fits(*gens, #[trigger] vs[k]) by {
            assert(check_fits(*gens, checks@[k]@));
        }
        lemma_combined_fits(*gens, vs, weights);
    }
    if checks.len() == 0 {
        proof {
            lemma_empty_vanishes(*gens);
        }
        return Ok(());
    }
    acc.verify(gens)
}

} // verus!
