//! The pad circuit.
//!
//! It shows knowledge of `sk` such that, with `(PK_1, PK_2, H_1, H_2, β, R)` public:
//!
//! ```text
//!   0.  PK_1 = g_in^{sk}
//!   1.  S    = PK_2^{sk}
//!   2-3. k   = int(S.x)
//!   4.  T_1  = H_1^k
//!   5.  T_2  = H_2^k
//!   6-7. r_1 = int(T_1.x), r_2 = int(T_2.x)
//!   8.  r    = β·r_1 + r_2  (mod p)
//!   9.  R    = g_out^r           (not in the circuit: R is the commitment to r)
//! ```
//!
//! The pad `r` is a committed value with zero blinding, so that its commitment is
//! `R = g_out^r`. All curve work is over Jubjub, which is native in `F_p`. Steps 0
//! and 1 use the same bits of `sk`, and steps 4 and 5 the same bits of `k`.
use crate::algebra::{cong, lemma_cong_add, lemma_cong_mod, lemma_cong_mul, lemma_cong_small};
use crate::curves::{
    gin_gen, gin_in_group, gin_is_pow, gin_log, gin_pow, lemma_gin_eq, lemma_gin_log, Fp, Fs,
    GinAffine, GinPoint, GoutAffine,
};
use crate::evrf::{witness_made, EvrfPublicInputs, EvrfWitness};
use crate::field::{bit, fp_order, fs_order, lemma_fp_order, lemma_fp_range, lemma_fs_order};
use crate::zk::bp_protocol::{lemma_pad_len, pad_len};
use crate::zk::bp_r1cs::padded_len;
use crate::zk::gadgets::{
    all_fit, all_known, all_right, are_bits, assert_eq_point, bit_decompose_canonical, bit_gates,
    bit_value, bits_out, bits_system, bits_value, built, canonical_system, compare_chain,
    const_mul_usable, constrained, decompose_out, decompose_system, eq_point_system, fits,
    fs_to_bits_le, gin_exponent, known_values, larger, lemma_bits_system, mul_point, offset_hash,
    point_fits, s_add, s_scale, scalar_mul_const, scalar_mul_out, scalar_mul_system, scalars,
    system, value_bits, window_count, windows, Point, Scalar, ScalarVar, System, WINDOW,
};
use crate::zk::honest::{
    bits_sum, extends, good, lemma_add_right, lemma_bits_honest, lemma_bits_sum,
    lemma_canonical_honest, lemma_constrained, lemma_eq_point_honest, lemma_extends_right,
    lemma_extends_self, lemma_extends_trans, lemma_scale_right, right,
};
use crate::zk::r1cs::{
    lc_eval, lc_in, lc_mul, lemma_lc_eval_push, lemma_minus_one, minus_one, var_in, wire,
    ConstraintSystem, Values, Variable,
};
use crate::zk::sound::{generator_right, law_pads_are_bound, pads_bound, peer_right};
use vstd::arithmetic::power2::pow2;
use vstd::prelude::*;

verus! {

/// Number of bits of `sk` and of `k`. `255` covers all of `F_p`; fewer bits do for
/// smaller witnesses.
pub const DEFAULT_LAMBDA: usize = 255;

/// The public inputs for one recipient of a batched proof.
#[derive(Clone, Copy, Debug)]
pub struct EvrfPeerInputs {
    pub pk2: GinAffine,
    pub r_commit: GoutAffine,
}

// ─── sizes ──────────────────────────────────────────────────────────────────

/// Gates of the shared part: the bits of `sk`, and one scalar multiplication.
pub open spec fn shared_gates(lambda: nat) -> nat {
    lambda + 10 * window_count(lambda) + 3
}

/// Gates for one recipient: three scalar multiplications, and the canonical bits of
/// `k`.
pub open spec fn peer_gates(lambda: nat) -> nat {
    3 * (10 * window_count(lambda) + 3) + (if lambda >= 255 {
        2 * lambda
    } else {
        lambda
    })
}

/// An estimate of the gates of a circuit with the given number of recipients.
pub open spec fn gates_estimate(lambda: nat, peers: nat) -> nat {
    let scalar_mul = 10 * window_count(lambda) + 4;
    (lambda + scalar_mul) + peers * (3 * scalar_mul + 2 * lambda + 4)
}

/// The number of generators that a proof for one recipient needs.
pub fn gens_capacity(lambda: usize) -> (r: usize)
    requires
        pad_len(gates_estimate(lambda as nat, 1)) <= usize::MAX,
    ensures
        r == pad_len(gates_estimate(lambda as nat, 1)),
{
    batch_gens_capacity(lambda, 1)
}

/// The number of generators that a proof for the given number of recipients needs.
pub fn batch_gens_capacity(lambda: usize, peers: usize) -> (r: usize)
    requires
        pad_len(gates_estimate(lambda as nat, peers as nat)) <= usize::MAX,
    ensures
        r == pad_len(gates_estimate(lambda as nat, peers as nat)),
{
    proof {
        lemma_pad_len(gates_estimate(lambda as nat, peers as nat));
        let sm = 10 * window_count(lambda as nat) + 4;
        let k = 3 * sm + 2 * lambda + 4;
        assert(peers > 0 ==> peers * k >= k) by (nonlinear_arith)
            requires
                k >= 0,
        ;
        assert(peers * k >= 0) by (nonlinear_arith)
            requires
                k >= 0,
        ;
        assert(window_count(lambda as nat) * 3 >= lambda);
    }
    let chunks: usize = lambda / WINDOW + (if lambda % WINDOW == 0 {
        0
    } else {
        1
    });
    let scalar_mul: usize = 10 * chunks + 4;
    let shared: usize = lambda + scalar_mul;
    let approx: usize = if peers == 0 {
        proof {
            let k = 3 * (10 * window_count(lambda as nat) + 4) + 2 * lambda + 4;
            assert(0 * k == 0) by (nonlinear_arith);
        }
        shared
    } else {
        shared + peers * (3 * scalar_mul + 2 * lambda + 4)
    };
    padded_len(approx)
}

/// The generators that [`batch_gens_capacity`] asks for are enough for the circuit: it has
/// no more gates than there are generators, also when it is padded to a power of two.
pub proof fn law_capacity_suffices(lambda: nat, peers: nat)
    ensures
        shared_gates(lambda) + peers * peer_gates(lambda) <= pad_len(gates_estimate(lambda, peers)),
        pad_len(shared_gates(lambda) + peers * peer_gates(lambda)) <= pad_len(
            gates_estimate(lambda, peers),
        ),
{
    let (a, b) = (
        shared_gates(lambda) + peers * peer_gates(lambda),
        gates_estimate(lambda, peers),
    );
    let (k, e) = (peer_gates(lambda), 3 * (10 * window_count(lambda) + 4) + 2 * lambda + 4);
    assert(peers * k <= peers * e) by (nonlinear_arith)
        requires
            k <= e,
    ;
    lemma_pad_len(a);
    lemma_pad_len(b);
    let j = choose|j: nat| pad_len(b) == pow2(j);
    assert(pow2(j) >= a);
}

// ─── the circuit ────────────────────────────────────────────────────────────

/// A secret scalar that only the prover knows.
pub open spec fn secret(sk: Option<&Fs>) -> Option<int> {
    match sk {
        Some(v) => Some(v@),
        None => None,
    }
}

/// The bits of the secret key in the circuit.
pub open spec fn sk_bits(sys: System, sk: Option<int>, lambda: nat) -> Seq<Scalar> {
    bits_out(sys, value_bits(sk, lambda))
}

/// The shared part: the bits of `sk`, and `PK_1 = g_in^{sk}`.
#[verifier::opaque]
pub open spec fn shared_system(sys: System, pk1: GinPoint, sk: Option<int>, lambda: nat) -> System {
    let s1 = bits_system(sys, value_bits(sk, lambda));
    let bits = sk_bits(sys, sk, lambda);
    let offset = offset_hash()->Some_0;
    eq_point_system(
        scalar_mul_system(s1, bits, gin_pow(1), offset),
        scalar_mul_out(s1, bits, gin_pow(1), offset),
        pk1,
    )
}

/// The public constants of the circuit.
pub struct Bases {
    pub h1: GinPoint,
    pub h2: GinPoint,
    pub beta: int,
}

/// The part for one recipient: `S = PK_2^{sk}`, `k = S.x`, `T_1 = H_1^k`,
/// `T_2 = H_2^k`, and `r = β·T_1.x + T_2.x`.
#[verifier::opaque]
pub open spec fn peer_system(
    sys: System,
    bits: Seq<Scalar>,
    pk2: GinPoint,
    bases: Bases,
    r_var: Variable,
    lambda: nat,
) -> System {
    let offset = offset_hash()->Some_0;
    let s1 = scalar_mul_system(sys, bits, pk2, offset);
    let s = scalar_mul_out(sys, bits, pk2, offset);
    let s2 = canonical_system(s1, s.x, lambda);
    let k_bits = decompose_out(s1, s.x, lambda);
    let s3 = scalar_mul_system(s2, k_bits, bases.h1, offset);
    let t1 = scalar_mul_out(s2, k_bits, bases.h1, offset);
    let s4 = scalar_mul_system(s3, k_bits, bases.h2, offset);
    let t2 = scalar_mul_out(s3, k_bits, bases.h2, offset);
    constrained(
        s4,
        (lc_mul(t1.x.lc, bases.beta) + t2.x.lc).push((r_var, minus_one())),
    )
}

/// The parts for the first `i` recipients.
pub open spec fn peers_system(
    sys: System,
    bits: Seq<Scalar>,
    pks: Seq<GinPoint>,
    bases: Bases,
    r_vars: Seq<Variable>,
    lambda: nat,
    i: nat,
) -> System
    decreases i,
{
    if i == 0 {
        sys
    } else {
        peer_system(
            peers_system(sys, bits, pks, bases, r_vars, lambda, (i - 1) as nat),
            bits,
            pks[i - 1],
            bases,
            r_vars[i - 1],
            lambda,
        )
    }
}

/// The whole circuit.
pub open spec fn batch_system(
    sys: System,
    pk1: GinPoint,
    sk: Option<int>,
    pks: Seq<GinPoint>,
    bases: Bases,
    r_vars: Seq<Variable>,
    lambda: nat,
) -> System {
    peers_system(
        shared_system(sys, pk1, sk, lambda),
        sk_bits(sys, sk, lambda),
        pks,
        bases,
        r_vars,
        lambda,
        pks.len(),
    )
}

/// The first `n` bits of a value that only the prover knows, as numbers.
pub open spec fn digits(v: Option<int>, n: nat) -> Seq<Option<int>> {
    Seq::new(
        n,
        |i: int|
            match v {
                Some(x) => Some(bit_value(bit(x, i as nat))),
                None => None,
            },
    )
}

/// The bits of `k = S.x`, where those of `sk` are known.
pub open spec fn k_digits(w: Seq<Option<int>>, pk2: GinPoint, lambda: nat) -> Seq<Option<int>> {
    digits(
        match mul_point(w, pk2, offset_hash()->Some_0) {
            Some(s) => Some(s.x),
            None => None,
        },
        lambda,
    )
}

/// Whether the part for one recipient can be computed. With points of the curve it always can.
pub open spec fn peer_usable(
    w: Seq<Option<int>>,
    pk2: GinPoint,
    bases: Bases,
    lambda: nat,
) -> bool {
    &&& const_mul_usable(w, pk2)
    &&& const_mul_usable(k_digits(w, pk2, lambda), bases.h1)
    &&& const_mul_usable(k_digits(w, pk2, lambda), bases.h2)
}

/// Whether the parts for all recipients can be computed.
pub open spec fn peers_usable(
    sk: Option<int>,
    pks: Seq<GinPoint>,
    bases: Bases,
    lambda: nat,
) -> bool {
    forall|i: int|
        0 <= i < pks.len() ==> peer_usable(digits(sk, lambda), #[trigger] pks[i], bases, lambda)
}

/// The keys of the recipients.
pub open spec fn peer_keys(peers: Seq<EvrfPeerInputs>) -> Seq<GinPoint> {
    Seq::new(peers.len(), |i: int| peers[i].pk2@)
}

// ─── honest values ──────────────────────────────────────────────────────────

/// The prover's values for one recipient: the witness is that of the pad, and the
/// committed value is the pad.
pub open spec fn honest_peer(
    w: Values,
    sk: int,
    pk2: GinPoint,
    bases: Bases,
    r_var: Variable,
    wit: EvrfWitness,
    lambda: nat,
) -> bool {
    &&& gin_in_group(pk2)
    &&& gin_in_group(bases.h1)
    &&& gin_in_group(bases.h2)
    &&& witness_made(sk, pk2, bases.h1, bases.h2, bases.beta, wit)
    &&& wit.s@.x < pow2(lambda)
    &&& cong(wire(r_var, w), wit.r@, fp_order())
}

/// Points of the prime-order subgroup with congruent exponents are equal.
proof fn lemma_same_point(p: GinPoint, e: int, q: GinPoint, k: int)
    requires
        gin_exponent(p, e),
        gin_is_pow(q, k),
        cong(e, k, fs_order()),
    ensures
        p == q,
{
    lemma_fs_order();
    lemma_gin_log(q, k);
    lemma_gin_eq(p, q);
    lemma_cong_small(gin_log(p), k, fs_order());
}

/// The number with the bits of `v` is `v`.
proof fn lemma_bits_value_sum(bits: Seq<Scalar>, v: int, i: nat)
    requires
        i <= bits.len(),
        forall|k: int|
            0 <= k < bits.len() ==> (#[trigger] bits[k]).w == Some(bit_value(bit(v, k as nat))),
    ensures
        bits_value(bits, i) == bits_sum(v, i),
    decreases i,
{
    if i > 0 {
        lemma_bits_value_sum(bits, v, (i - 1) as nat);
        assert(bits[i - 1].w == Some(bit_value(bit(v, (i - 1) as nat))));
    }
}

/// Bits in the circuit are bits, and are known where the value is.
proof fn lemma_value_bits(sys: System, v: Option<int>, n: nat)
    ensures
        bits_out(sys, value_bits(v, n)).len() == n,
        known_values(bits_out(sys, value_bits(v, n))) == digits(v, n),
        are_bits(bits_out(sys, value_bits(v, n))),
        v is Some ==> all_known(bits_out(sys, value_bits(v, n))),
        v matches Some(x) ==> (0 <= x < pow2(n) ==> bits_value(
            bits_out(sys, value_bits(v, n)),
            n,
        ) == x),
{
    let bits = bits_out(sys, value_bits(v, n));
    assert(known_values(bits) =~= digits(v, n));
    if v is Some {
        let x = v->Some_0;
        assert forall|k: int| 0 <= k < bits.len() implies (#[trigger] bits[k]).w == Some(
            bit_value(bit(x, k as nat)),
        ) by {}
        if 0 <= x {
            lemma_bits_value_sum(bits, x, n);
            lemma_bits_sum(x, n);
        }
    }
}

/// The bits of a secret that only the prover knows.
pub fn secret_bits(sk: Option<&Fs>, n: usize) -> (r: Vec<Option<bool>>)
    ensures
        r@ == value_bits(secret(sk), n as nat),
{
    let mut w: Vec<Option<bool>> = Vec::with_capacity(n);
    match sk {
        Some(v) => {
            let bits = fs_to_bits_le(v, n);
            let mut i: usize = 0;
            while i < n
                invariant
                    i <= n,
                    bits@.len() == n,
                    forall|k: int| 0 <= k < n ==> #[trigger] bits@[k] == bit(v@, k as nat),
                    w@ == value_bits(Some(v@), i as nat),
                decreases n - i,
            {
                w.push(Some(bits[i]));
                assert(w@ =~= value_bits(Some(v@), (i + 1) as nat));
                i = i + 1;
            }
        },
        None => {
            let mut i: usize = 0;
            while i < n
                invariant
                    i <= n,
                    w@ == value_bits(None, i as nat),
                decreases n - i,
            {
                w.push(None);
                assert(w@ =~= value_bits(None, (i + 1) as nat));
                i = i + 1;
            }
        },
    }
    w
}

/// Allocates the bits of a secret that the prover knows.
fn alloc_bits<CS: ConstraintSystem>(cs: &mut CS, sk: Option<&Fs>, n: usize) -> (r: Vec<ScalarVar>)
    requires
        old(cs).well_formed(),
        old(cs).circuit().n_mul + n <= usize::MAX,
        old(cs).values() is Some ==> sk is Some,
    ensures
        built(
            *old(cs),
            *final(cs),
            bits_system(system(*old(cs)), value_bits(secret(sk), n as nat)),
        ),
        scalars(r@) == sk_bits(system(*old(cs)), secret(sk), n as nat),
        all_fit(system(*final(cs)), scalars(r@)),
{
    let w = secret_bits(sk, n);
    bit_gates(cs, w.as_slice())
}

/// The shared part: the bits of `sk`, with `PK_1 = g_in^{sk}`.
fn build_shared_sk<CS: ConstraintSystem>(
    cs: &mut CS,
    pk1: &GinAffine,
    sk: Option<&Fs>,
    lambda: usize,
) -> (r: Vec<ScalarVar>)
    requires
        old(cs).well_formed(),
        old(cs).circuit().n_mul + shared_gates(lambda as nat) <= usize::MAX,
        old(cs).values() is Some ==> sk is Some,
        offset_hash() is Some,
    ensures
        built(
            *old(cs),
            *final(cs),
            shared_system(system(*old(cs)), pk1@, secret(sk), lambda as nat),
        ),
        scalars(r@) == sk_bits(system(*old(cs)), secret(sk), lambda as nat),
        all_fit(system(*final(cs)), scalars(r@)),
        are_bits(scalars(r@)),
        larger(system(*old(cs)), system(*final(cs))),
        system(*final(cs)).c.n_mul == system(*old(cs)).c.n_mul + shared_gates(lambda as nat),
        generator_right(lambda as nat),
        good(system(*old(cs))) && (old(cs).values() is Some ==> gin_is_pow(pk1@, sk->Some_0@)
            && sk->Some_0@ < pow2(lambda as nat)) ==> {
            &&& good(system(*final(cs)))
            &&& extends(system(*old(cs)), system(*final(cs)))
            &&& all_right(system(*final(cs)), scalars(r@))
        },
{
    let ghost s0 = system(*cs);
    let ghost w = value_bits(secret(sk), lambda as nat);
    reveal(shared_system);
    let bits = alloc_bits(cs, sk, lambda);
    let ghost s1 = system(*cs);
    let ghost bs = scalars(bits@);
    proof {
        lemma_bits_system(s0, w);
        lemma_value_bits(s0, secret(sk), lambda as nat);
    }
    let g = gin_gen();
    proof {
        lemma_gin_log(g@, 1);
    }
    let pk1_circuit = scalar_mul_const(cs, bits.as_slice(), &g);
    let ghost s2 = system(*cs);
    proof {
        lemma_scalar_mul_size(s1, bs, gin_pow(1), offset_hash()->Some_0);
    }
    assert_eq_point(cs, &pk1_circuit, pk1);
    let ghost s3 = system(*cs);
    proof {
        assert forall|i: int| 0 <= i < bs.len() implies fits(s3, #[trigger] bs[i]) by {
            assert(fits(s1, bs[i]));
            lemma_fits_more(s1, s3, bs[i]);
        }
        if good(s0) && (s0.w is Some ==> gin_is_pow(pk1@, sk->Some_0@) && sk->Some_0@ < pow2(
            lambda as nat,
        )) {
            lemma_bits_honest(s0, w);
            assert(all_right(s1, bs)) by {
                assert forall|i: int| 0 <= i < bs.len() implies right(s1, #[trigger] bs[i]) by {
                    assert(right(s1, bits_out(s0, w)[i]));
                }
            }
            if s0.w is Some {
                let v = sk->Some_0@;
                crate::field::lemma_fs_range(*sk->Some_0);
                let p = pk1_circuit@.w->Some_0;
                assert(gin_exponent(p, gin_log(g@) * bits_value(bs, bs.len())));
                assert(1 * v == v) by (nonlinear_arith);
                lemma_same_point(p, 1 * v, pk1@, v);
            }
            lemma_eq_point_honest(s2, pk1_circuit@, pk1@);
            lemma_extends_trans(s0, s1, s2);
            lemma_extends_trans(s1, s2, s3);
            lemma_extends_trans(s0, s2, s3);
            assert forall|i: int| 0 <= i < bs.len() implies right(s3, #[trigger] bs[i]) by {
                assert(right(s1, bs[i]));
                lemma_extends_right(s1, s3, bs[i]);
            }
        }
    }
    bits
}

proof fn lemma_fits_more(sys: System, sys2: System, a: Scalar)
    requires
        larger(sys, sys2),
        fits(sys, a),
    ensures
        fits(sys2, a),
{
    assert forall|k: int| 0 <= k < a.lc.len() implies var_in(
        (#[trigger] a.lc[k]).0,
        sys2.c.n_mul,
        sys2.c.n_committed,
    ) by {
        assert(var_in(a.lc[k].0, sys.c.n_mul, sys.c.n_committed));
    }
}

/// The number of gates of windows.
proof fn lemma_windows_size(
    sys: System,
    bits: Seq<Scalar>,
    base: GinPoint,
    offset: GinPoint,
    i: nat,
)
    ensures
        larger(sys, windows(sys, bits, base, offset, i).0),
        windows(sys, bits, base, offset, i).0.c.n_mul == sys.c.n_mul + 10 * i,
    decreases i,
{
    if i > 0 {
        lemma_windows_size(sys, bits, base, offset, (i - 1) as nat);
    }
}

/// The number of gates of a scalar multiplication.
proof fn lemma_scalar_mul_size(
    sys: System,
    bits: Seq<Scalar>,
    base: GinPoint,
    offset: GinPoint,
)
    ensures
        larger(sys, scalar_mul_system(sys, bits, base, offset)),
        scalar_mul_system(sys, bits, base, offset).c.n_mul == sys.c.n_mul + 10 * window_count(
            bits.len(),
        ) + 3,
{
    reveal(scalar_mul_system);
    lemma_windows_size(sys, bits, base, offset, window_count(bits.len()));
}

proof fn lemma_chain_size(sys: System, bits: Seq<Scalar>, i: nat)
    requires
        i <= bits.len(),
    ensures
        larger(sys, compare_chain(sys, bits, i).0),
        compare_chain(sys, bits, i).0.c.n_mul == sys.c.n_mul + (bits.len() - i),
    decreases bits.len() - i,
{
    if i < bits.len() {
        lemma_chain_size(sys, bits, i + 1);
    }
}

/// The number of gates of a canonical decomposition.
proof fn lemma_canonical_size(sys: System, value: Scalar, n: nat)
    ensures
        larger(sys, canonical_system(sys, value, n)),
        canonical_system(sys, value, n).c.n_mul == sys.c.n_mul + (if n >= 255 {
            2 * n
        } else {
            n
        }),
{
    reveal(canonical_system);
    lemma_bits_system(sys, value_bits(value.w, n));
    if n >= 255 {
        lemma_chain_size(decompose_system(sys, value, n), decompose_out(sys, value, n), 0);
    }
}

/// The points and the pad of an honest witness, in the circuit.
proof fn lemma_peer_points(
    s: Point,
    t1: Point,
    t2: Point,
    sk: int,
    pk2: GinPoint,
    bases: Bases,
    wit: EvrfWitness,
)
    requires
        gin_in_group(pk2),
        gin_in_group(bases.h1),
        gin_in_group(bases.h2),
        witness_made(sk, pk2, bases.h1, bases.h2, bases.beta, wit),
        s.w matches Some(p) && gin_exponent(p, gin_log(pk2) * sk),
        t1.w matches Some(p) && gin_exponent(p, gin_log(bases.h1) * wit.s@.x),
        t2.w matches Some(p) && gin_exponent(p, gin_log(bases.h2) * wit.s@.x),
    ensures
        s.w == Some(wit.s@),
        t1.w == Some(wit.t1@),
        t2.w == Some(wit.t2@),
{
    let m = fs_order();
    lemma_fs_order();
    let l = gin_log(pk2);
    lemma_cong_mod(l * sk, m);
    lemma_same_point(s.w->Some_0, l * sk, wit.s@, (l * sk) % m);
    let x = wit.s@.x;
    let (l1, l2) = (gin_log(bases.h1), gin_log(bases.h2));
    lemma_cong_mod(x, m);
    lemma_cong_mul(l1, l1, x % m, x, m);
    lemma_cong_mod(l1 * (x % m), m);
    lemma_same_point(t1.w->Some_0, l1 * x, wit.t1@, (l1 * (x % m)) % m);
    lemma_cong_mul(l2, l2, x % m, x, m);
    lemma_cong_mod(l2 * (x % m), m);
    lemma_same_point(t2.w->Some_0, l2 * x, wit.t2@, (l2 * (x % m)) % m);
}

/// The last constraint of an honest recipient holds.
proof fn lemma_pad_constraint(
    sys: System,
    x1: Scalar,
    x2: Scalar,
    beta: int,
    r_var: Variable,
    r: int,
)
    requires
        good(sys),
        right(sys, x1),
        right(sys, x2),
        var_in(r_var, sys.c.n_mul, sys.c.n_committed),
        sys.w matches Some(w) ==> {
            &&& cong(wire(r_var, w), r, fp_order())
            &&& cong(r, beta * x1.w->Some_0 + x2.w->Some_0, fp_order())
        },
    ensures
        ({
            let lc = (lc_mul(x1.lc, beta) + x2.lc).push((r_var, minus_one()));
            &&& good(constrained(sys, lc))
            &&& extends(sys, constrained(sys, lc))
        }),
{
    let m = fp_order();
    lemma_fp_order();
    lemma_minus_one();
    lemma_scale_right(sys, x1, beta);
    lemma_add_right(sys, s_scale(x1, beta), x2);
    let sum = s_add(s_scale(x1, beta), x2);
    let lc = sum.lc.push((r_var, minus_one()));
    assert forall|k: int| 0 <= k < lc.len() implies var_in(
        (#[trigger] lc[k]).0,
        sys.c.n_mul,
        sys.c.n_committed,
    ) by {
        if k < sum.lc.len() {
            assert(var_in(sum.lc[k].0, sys.c.n_mul, sys.c.n_committed));
        }
    }
    if sys.w is Some {
        let w = sys.w->Some_0;
        let (a, b) = (x1.w->Some_0, x2.w->Some_0);
        lemma_lc_eval_push(sum.lc, r_var, minus_one(), w);
        lemma_cong_mod(a * beta, m);
        lemma_cong_add((a * beta) % m, a * beta, b, b, m);
        lemma_cong_mod((a * beta) % m + b, m);
        assert(a * beta == beta * a) by (nonlinear_arith);
        // sum ≡ β·a + b ≡ r
        let x = wire(r_var, w);
        lemma_cong_mod(-1, m);
        lemma_cong_mul(minus_one(), -1, x, r, m);
        lemma_cong_add(lc_eval(sum.lc, w), r, minus_one() * x, (-1) * r, m);
        assert(r + (-1) * r == 0) by (nonlinear_arith);
    }
    lemma_constrained(sys, lc);
}

/// The part for one recipient: `S = PK_2^{sk}`, `k = S.x`, `T_1 = H_1^k`,
/// `T_2 = H_2^k`, and `r = β·T_1.x + T_2.x` for the committed `r`.
#[verifier::rlimit(40)]
fn build_per_peer<CS: ConstraintSystem>(
    cs: &mut CS,
    bits: &[ScalarVar],
    pk2: &GinAffine,
    h1m: &GinAffine,
    h2m: &GinAffine,
    beta: Fp,
    r_var: Variable,
    wit: Option<&EvrfWitness>,
    lambda: usize,
)
    requires
        old(cs).well_formed(),
        old(cs).circuit().n_mul + peer_gates(lambda as nat) <= usize::MAX,
        bits@.len() == lambda,
        all_fit(system(*old(cs)), scalars(bits@)),
        are_bits(scalars(bits@)),
        peer_usable(
            known_values(scalars(bits@)),
            pk2@,
            (Bases { h1: h1m@, h2: h2m@, beta: beta@ }),
            lambda as nat,
        ),
        var_in(r_var, old(cs).circuit().n_mul, old(cs).circuit().n_committed),
        offset_hash() is Some,
    ensures
        built(
            *old(cs),
            *final(cs),
            peer_system(
                system(*old(cs)),
                scalars(bits@),
                pk2@,
                (Bases { h1: h1m@, h2: h2m@, beta: beta@ }),
                r_var,
                lambda as nat,
            ),
        ),
        larger(system(*old(cs)), system(*final(cs))),
        system(*final(cs)).c.n_mul == system(*old(cs)).c.n_mul + peer_gates(lambda as nat),
        peer_right(pk2@, (Bases { h1: h1m@, h2: h2m@, beta: beta@ }), lambda as nat),
        good(system(*old(cs))) && all_right(system(*old(cs)), scalars(bits@)) && (
        old(cs).values() matches Some(w) ==> {
            &&& wit is Some
            &&& all_known(scalars(bits@))
            &&& honest_peer(
                w,
                bits_value(scalars(bits@), lambda as nat),
                pk2@,
                (Bases { h1: h1m@, h2: h2m@, beta: beta@ }),
                r_var,
                *wit->Some_0,
                lambda as nat,
            )
        }) ==> {
            &&& good(system(*final(cs)))
            &&& extends(system(*old(cs)), system(*final(cs)))
        },
{
    let ghost s0 = system(*cs);
    let ghost bs = scalars(bits@);
    let ghost offset = offset_hash()->Some_0;
    let ghost bases = Bases { h1: h1m@, h2: h2m@, beta: beta@ };
    let ghost n = lambda as nat;
    let ghost honest = good(s0) && all_right(s0, bs) && (s0.w matches Some(w) ==> {
        &&& wit is Some
        &&& all_known(bs)
        &&& honest_peer(w, bits_value(bs, n), pk2@, bases, r_var, *wit->Some_0, n)
    });
    reveal(peer_system);
    // S = PK_2^{sk}
    let s = scalar_mul_const(cs, bits, pk2);
    let ghost s1 = system(*cs);
    proof {
        lemma_scalar_mul_size(s0, bs, pk2@, offset);
        assert(bs.len() == n);
    }
    // k = int(S.x). The decomposition has to be the canonical one: with that of
    // k + p the pad would be another one.
    let k_bits = bit_decompose_canonical(cs, &s.x, lambda);
    let ghost s2 = system(*cs);
    let ghost kb = scalars(k_bits@);
    proof {
        lemma_canonical_size(s1, s@.x, n);
        lemma_value_bits(s1, s@.x.w, n);
        if s.x.w is Some {
            lemma_fp_range(s.x.w->Some_0);
        }
    }
    // T_1 = H_1^k, T_2 = H_2^k
    let t1 = scalar_mul_const(cs, k_bits.as_slice(), h1m);
    let ghost s3 = system(*cs);
    proof {
        lemma_scalar_mul_size(s2, kb, h1m@, offset);
        assert forall|i: int| 0 <= i < kb.len() implies fits(s3, #[trigger] kb[i]) by {
            assert(fits(s2, kb[i]));
            lemma_fits_more(s2, s3, kb[i]);
        }
    }
    let t2 = scalar_mul_const(cs, k_bits.as_slice(), h2m);
    let ghost s4 = system(*cs);
    proof {
        lemma_scalar_mul_size(s3, kb, h2m@, offset);
        lemma_fits_more(s3, s4, t1@.x);
    }
    // r = β·r_1 + r_2
    let ghost (x1, x2) = (t1@.x, t2@.x);
    let r_lc = t1.x.lc.scaled(beta).plus(t2.x.lc);
    proof {
        lemma_fits_pad(s4, x1, x2, beta@, r_var);
    }
    cs.constrain(r_lc - r_var);
    proof {
        if honest {
            // the prover's points
            lemma_canonical_premise(s0, s1, s@, pk2@, bs, n, wit, bases, r_var);
            lemma_canonical_honest(s1, s@.x, n);
            assert(all_right(s2, kb)) by {
                assert forall|i: int| 0 <= i < kb.len() implies right(s2, #[trigger] kb[i]) by {
                    assert(right(s2, decompose_out(s1, s@.x, n)[i]));
                }
            }
            assert(all_right(s3, kb)) by {
                assert forall|i: int| 0 <= i < kb.len() implies right(s3, #[trigger] kb[i]) by {
                    assert(right(s2, kb[i]));
                    lemma_extends_right(s2, s3, kb[i]);
                }
            }
            lemma_extends_trans(s0, s1, s2);
            lemma_extends_trans(s0, s2, s3);
            lemma_extends_trans(s0, s3, s4);
            lemma_extends_right(s3, s4, t1@.x);
            if s0.w is Some {
                let w0 = s0.w->Some_0;
                let wt = *wit->Some_0;
                let sk = bits_value(bs, n);
                lemma_peer_points(s@, t1@, t2@, sk, pk2@, bases, wt);
                lemma_fp_order();
                lemma_cong_mod(beta@ * wt.r1@ + wt.r2@, fp_order());
                lemma_wire_kept(s0, s4, r_var);
            }
            lemma_pad_constraint(
                s4,
                t1@.x,
                t2@.x,
                beta@,
                r_var,
                if wit is Some {
                    wit->Some_0.r@
                } else {
                    0
                },
            );
            lemma_extends_trans(s0, s4, system(*cs));
        }
    }
}

/// A wire keeps its value.
proof fn lemma_wire_kept(sys: System, sys2: System, v: Variable)
    requires
        extends(sys, sys2),
        sys.w is Some,
        var_in(v, sys.c.n_mul, sys.c.n_committed),
    ensures
        wire(v, sys2.w->Some_0) == wire(v, sys.w->Some_0),
{
    let (u, w) = (sys.w->Some_0, sys2.w->Some_0);
    match v {
        Variable::MultiplierLeft(i) => {
            assert(w.a_l.take(u.a_l.len() as int)[i as int] == w.a_l[i as int]);
        },
        Variable::MultiplierRight(i) => {
            assert(w.a_r.take(u.a_r.len() as int)[i as int] == w.a_r[i as int]);
        },
        Variable::MultiplierOutput(i) => {
            assert(w.a_o.take(u.a_o.len() as int)[i as int] == w.a_o[i as int]);
        },
        _ => {},
    }
}

/// The x-coordinate of the secret fits into the bits.
proof fn lemma_canonical_premise(
    s0: System,
    s1: System,
    s: Point,
    pk2: GinPoint,
    bs: Seq<Scalar>,
    n: nat,
    wit: Option<&EvrfWitness>,
    bases: Bases,
    r_var: Variable,
)
    requires
        point_fits(s1, s),
        larger(s0, s1),
        s0.w matches Some(w) ==> {
            &&& wit is Some
            &&& honest_peer(w, bits_value(bs, n), pk2, bases, r_var, *wit->Some_0, n)
            &&& s.w matches Some(p) && gin_exponent(p, gin_log(pk2) * bits_value(bs, n))
        },
    ensures
        s1.w is Some ==> s.x.w == Some(wit->Some_0.s@.x) && s.x.w->Some_0 < pow2(n),
{
    if s1.w is Some {
        let m = fs_order();
        lemma_fs_order();
        let sk = bits_value(bs, n);
        let l = gin_log(pk2);
        lemma_cong_mod(l * sk, m);
        lemma_same_point(s.w->Some_0, l * sk, wit->Some_0.s@, (l * sk) % m);
    }
}

/// The last constraint uses wires that exist.
proof fn lemma_fits_pad(sys: System, x1: Scalar, x2: Scalar, beta: int, r_var: Variable)
    requires
        fits(sys, x1),
        fits(sys, x2),
        var_in(r_var, sys.c.n_mul, sys.c.n_committed),
    ensures
        lc_in(
            (lc_mul(x1.lc, beta) + x2.lc).push((r_var, minus_one())),
            sys.c.n_mul,
            sys.c.n_committed,
        ),
{
    let a = lc_mul(x1.lc, beta);
    let lc = (a + x2.lc).push((r_var, minus_one()));
    assert forall|k: int| 0 <= k < lc.len() implies var_in(
        (#[trigger] lc[k]).0,
        sys.c.n_mul,
        sys.c.n_committed,
    ) by {
        if k < a.len() {
            assert(var_in(x1.lc[k].0, sys.c.n_mul, sys.c.n_committed));
        } else if k < a.len() + x2.lc.len() {
            assert(var_in(x2.lc[k - a.len()].0, sys.c.n_mul, sys.c.n_committed));
        }
    }
}

/// The prover's values for all recipients.
pub open spec fn honest_batch(
    w: Values,
    pk1: GinPoint,
    peers: Seq<EvrfPeerInputs>,
    bases: Bases,
    r_vars: Seq<Variable>,
    wits: Seq<EvrfWitness>,
    lambda: nat,
) -> bool {
    &&& wits.len() == peers.len()
    &&& wits.len() > 0
    &&& gin_is_pow(pk1, wits[0].sk@)
    &&& wits[0].sk@ < pow2(lambda)
    &&& forall|i: int|
        0 <= i < peers.len() ==> honest_peer(
            w,
            wits[0].sk@,
            (#[trigger] peers[i]).pk2@,
            bases,
            r_vars[i],
            wits[i],
            lambda,
        )
}

/// The secret key of the first witness.
pub open spec fn batch_secret(wits: Option<&[EvrfWitness]>) -> Option<int> {
    match wits {
        Some(w) => if w@.len() > 0 {
            Some(w@[0].sk@)
        } else {
            None
        },
        None => None,
    }
}

/// Every variable exists.
pub open spec fn vars_in(vars: Seq<Variable>, n: nat, m: nat) -> bool {
    forall|i: int| 0 <= i < vars.len() ==> var_in(#[trigger] vars[i], n, m)
}

/// Room for one recipient more.
proof fn lemma_room(base: int, i: int, n: int, each: int)
    requires
        0 <= i < n,
        each >= 0,
    ensures
        base + i * each + each <= base + n * each,
        base + (i + 1) * each == base + i * each + each,
{
    assert((i + 1) * each == i * each + each) by (nonlinear_arith);
    assert((i + 1) * each <= n * each) by (nonlinear_arith)
        requires
            i + 1 <= n,
            each >= 0,
    ;
}

/// Bits that fit and are right stay so.
proof fn lemma_bits_kept(s1: System, s2: System, bs: Seq<Scalar>)
    requires
        larger(s1, s2),
        all_fit(s1, bs),
        s1.c.n_mul <= usize::MAX,
    ensures
        all_fit(s2, bs),
        extends(s1, s2) && all_right(s1, bs) ==> all_right(s2, bs),
{
    assert forall|k: int| 0 <= k < bs.len() implies fits(s2, #[trigger] bs[k]) by {
        assert(fits(s1, bs[k]));
        lemma_fits_more(s1, s2, bs[k]);
    }
    if extends(s1, s2) && all_right(s1, bs) {
        assert forall|k: int| 0 <= k < bs.len() implies right(s2, #[trigger] bs[k]) by {
            assert(right(s1, bs[k]));
            lemma_extends_right(s1, s2, bs[k]);
        }
    }
}

/// The circuit for one proof that covers all recipients, with the bits of `sk` and
/// the check of `PK_1` shared. `peers`, `r_vars` and `wits` are in the same order.
pub fn build_batch_circuit<CS: ConstraintSystem>(
    cs: &mut CS,
    pk1: &GinAffine,
    h1m: &GinAffine,
    h2m: &GinAffine,
    beta: Fp,
    peers: &[EvrfPeerInputs],
    r_vars: &[Variable],
    wits: Option<&[EvrfWitness]>,
    lambda: usize,
)
    requires
        old(cs).well_formed(),
        old(cs).circuit().n_mul + shared_gates(lambda as nat) + peers@.len() * peer_gates(
            lambda as nat,
        ) <= usize::MAX,
        r_vars@.len() == peers@.len(),
        vars_in(r_vars@, old(cs).circuit().n_mul, old(cs).circuit().n_committed),
        wits matches Some(w) ==> w@.len() == peers@.len(),
        old(cs).values() is Some ==> batch_secret(wits) is Some,
        offset_hash() is Some,
        peers_usable(
            batch_secret(wits),
            peer_keys(peers@),
            (Bases { h1: h1m@, h2: h2m@, beta: beta@ }),
            lambda as nat,
        ),
    ensures
        built(
            *old(cs),
            *final(cs),
            batch_system(
                system(*old(cs)),
                pk1@,
                batch_secret(wits),
                peer_keys(peers@),
                (Bases { h1: h1m@, h2: h2m@, beta: beta@ }),
                r_vars@,
                lambda as nat,
            ),
        ),
        larger(system(*old(cs)), system(*final(cs))),
        system(*final(cs)).c.n_mul == system(*old(cs)).c.n_mul + shared_gates(lambda as nat)
            + peers@.len() * peer_gates(lambda as nat),
        final(cs).circuit().n_mul - old(cs).circuit().n_mul <= pad_len(
            gates_estimate(lambda as nat, peers@.len()),
        ),
        pads_bound(
            final(cs).circuit(),
            pk1@,
            peer_keys(peers@),
            (Bases { h1: h1m@, h2: h2m@, beta: beta@ }),
            r_vars@,
        ),
        good(system(*old(cs))) && (old(cs).values() matches Some(w) ==> honest_batch(
            w,
            pk1@,
            peers@,
            (Bases { h1: h1m@, h2: h2m@, beta: beta@ }),
            r_vars@,
            wits->Some_0@,
            lambda as nat,
        )) ==> {
            &&& good(system(*final(cs)))
            &&& extends(system(*old(cs)), system(*final(cs)))
        },
{
    let ghost cs0 = *cs;
    let ghost s0 = system(*cs);
    let ghost bases = Bases { h1: h1m@, h2: h2m@, beta: beta@ };
    let ghost n = lambda as nat;
    let ghost keys = peer_keys(peers@);
    let ghost honest = good(s0) && (s0.w matches Some(w) ==> honest_batch(
        w,
        pk1@,
        peers@,
        bases,
        r_vars@,
        wits->Some_0@,
        n,
    ));
    let sk = match wits {
        Some(w) => if w.len() > 0 {
            Some(&w[0].sk)
        } else {
            None
        },
        None => None,
    };
    assert(secret(sk) == batch_secret(wits));
    let ghost (shared, each) = (shared_gates(n), peer_gates(n));
    assert(peers@.len() * each >= 0) by (nonlinear_arith);
    let bits = build_shared_sk(cs, pk1, sk, lambda);
    let ghost s1 = system(*cs);
    let ghost bs = scalars(bits@);
    proof {
        lemma_value_bits(s0, secret(sk), n);
        if honest && s0.w is Some {
            crate::field::lemma_fs_range(*sk->Some_0);
        }
        assert(0 * each == 0) by (nonlinear_arith);
        if honest {
            lemma_extends_self(s1);
        }
    }
    let mut i: usize = 0;
    while i < peers.len()
        invariant
            i <= peers@.len(),
            r_vars@.len() == peers@.len(),
            s0 == system(cs0),
            vars_in(r_vars@, s0.c.n_mul, s0.c.n_committed),
            larger(s0, s1),
            bs == scalars(bits@),
            bs.len() == lambda,
            n == lambda,
            bases == (Bases { h1: h1m@, h2: h2m@, beta: beta@ }),
            keys == peer_keys(peers@),
            shared == shared_gates(n),
            each == peer_gates(n),
            s0.c.n_mul + shared + peers@.len() * each <= usize::MAX,
            wits matches Some(w) ==> w@.len() == peers@.len(),
            known_values(bs) == digits(batch_secret(wits), n),
            peers_usable(batch_secret(wits), keys, bases, n),
            offset_hash() is Some,
            all_fit(s1, bs),
            are_bits(bs),
            forall|j: int| 0 <= j < i ==> peer_right(#[trigger] keys[j], bases, n),
            built(cs0, *cs, peers_system(s1, bs, keys, bases, r_vars@, n, i as nat)),
            larger(s1, system(*cs)),
            system(*cs).c.n_mul == s0.c.n_mul + shared + i * each,
            s1.c.n_mul <= usize::MAX,
            honest == (good(s0) && (s0.w matches Some(w) ==> honest_batch(
                w,
                pk1@,
                peers@,
                bases,
                r_vars@,
                wits->Some_0@,
                n,
            ))),
            s0.w is Some ==> batch_secret(wits) is Some,
            honest ==> good(system(*cs)) && extends(s0, system(*cs)) && extends(s1, system(*cs))
                && all_right(s1, bs),
            honest && s0.w is Some ==> all_known(bs) && bits_value(bs, n) == wits->Some_0@[0].sk@,
        decreases peers@.len() - i,
    {
        let ghost s2 = system(*cs);
        proof {
            lemma_room(
                (s0.c.n_mul + shared) as int,
                i as int,
                peers@.len() as int,
                each as int,
            );
            lemma_bits_kept(s1, s2, bs);
            assert(var_in(r_vars@[i as int], s0.c.n_mul, s0.c.n_committed));
            assert(keys[i as int] == peers@[i as int].pk2@);
            if honest {
                if s0.w is Some {
                    lemma_wire_kept(s0, s2, r_vars@[i as int]);
                    assert(honest_peer(
                        s0.w->Some_0,
                        wits->Some_0@[0].sk@,
                        peers@[i as int].pk2@,
                        bases,
                        r_vars@[i as int],
                        wits->Some_0@[i as int],
                        n,
                    ));
                }
            }
        }
        let wit = match wits {
            Some(w) => Some(&w[i]),
            None => None,
        };
        build_per_peer(
            cs,
            bits.as_slice(),
            &peers[i].pk2,
            h1m,
            h2m,
            beta,
            r_vars[i],
            wit,
            lambda,
        );
        proof {
            if honest {
                lemma_extends_trans(s0, s2, system(*cs));
                lemma_extends_trans(s1, s2, system(*cs));
            }
        }
        i = i + 1;
    }
    proof {
        lemma_fp_range(pk1.x);
        lemma_fp_range(pk1.y);
        law_pads_are_bound(s0, pk1@, secret(sk), keys, bases, r_vars@, n);
        law_capacity_suffices(n, peers@.len());
    }
}

/// What [`build_circuit`] makes of a system.
pub open spec fn single_system(
    sys: System,
    pubs: EvrfPublicInputs,
    r_var: Variable,
    sk: Option<int>,
    lambda: nat,
) -> System {
    peer_system(
        shared_system(sys, pubs.pk1@, sk, lambda),
        sk_bits(sys, sk, lambda),
        pubs.pk2@,
        Bases { h1: pubs.h1m@, h2: pubs.h2m@, beta: pubs.beta@ },
        r_var,
        lambda,
    )
}

/// The circuit for one recipient. `r_var` is the committed pad; the prover gives the
/// witness.
pub fn build_circuit<CS: ConstraintSystem>(
    cs: &mut CS,
    pubs: &EvrfPublicInputs,
    r_var: Variable,
    wit: Option<&EvrfWitness>,
    lambda: usize,
)
    requires
        old(cs).well_formed(),
        old(cs).circuit().n_mul + shared_gates(lambda as nat) + peer_gates(lambda as nat)
            <= usize::MAX,
        var_in(r_var, old(cs).circuit().n_mul, old(cs).circuit().n_committed),
        old(cs).values() is Some ==> wit is Some,
        offset_hash() is Some,
        peer_usable(
            digits(
                match wit {
                    Some(w) => Some(w.sk@),
                    None => None,
                },
                lambda as nat,
            ),
            pubs.pk2@,
            (Bases { h1: pubs.h1m@, h2: pubs.h2m@, beta: pubs.beta@ }),
            lambda as nat,
        ),
    ensures
        built(
            *old(cs),
            *final(cs),
            single_system(
                system(*old(cs)),
                *pubs,
                r_var,
                (match wit {
                    Some(w) => Some(w.sk@),
                    None => None,
                }),
                lambda as nat,
            ),
        ),
        system(*final(cs)).c.n_mul == system(*old(cs)).c.n_mul + shared_gates(lambda as nat)
            + peer_gates(lambda as nat),
        pads_bound(
            final(cs).circuit(),
            pubs.pk1@,
            seq![pubs.pk2@],
            (Bases { h1: pubs.h1m@, h2: pubs.h2m@, beta: pubs.beta@ }),
            seq![r_var],
        ),
        good(system(*old(cs))) && (old(cs).values() matches Some(w) ==> {
            let t = *wit->Some_0;
            &&& gin_is_pow(pubs.pk1@, t.sk@)
            &&& t.sk@ < pow2(lambda as nat)
            &&& honest_peer(
                w,
                t.sk@,
                pubs.pk2@,
                (Bases { h1: pubs.h1m@, h2: pubs.h2m@, beta: pubs.beta@ }),
                r_var,
                t,
                lambda as nat,
            )
        }) ==> good(system(*final(cs))) && extends(system(*old(cs)), system(*final(cs))),
{
    let ghost s0 = system(*cs);
    let ghost n = lambda as nat;
    let sk = match wit {
        Some(w) => Some(&w.sk),
        None => None,
    };
    let bits = build_shared_sk(cs, &pubs.pk1, sk, lambda);
    let ghost s1 = system(*cs);
    proof {
        lemma_value_bits(s0, secret(sk), n);
        if s0.w is Some {
            crate::field::lemma_fs_range(*sk->Some_0);
        }
        if s0.w is Some && extends(s0, s1) {
            lemma_wire_kept(s0, s1, r_var);
        }
    }
    build_per_peer(
        cs,
        bits.as_slice(),
        &pubs.pk2,
        &pubs.h1m,
        &pubs.h2m,
        pubs.beta,
        r_var,
        wit,
        lambda,
    );
    proof {
        if extends(s0, s1) && extends(s1, system(*cs)) {
            lemma_extends_trans(s0, s1, system(*cs));
        }
        lemma_fp_range(pubs.pk1.x);
        lemma_fp_range(pubs.pk1.y);
        let (keys, vars) = (seq![pubs.pk2@], seq![r_var]);
        let bases = Bases { h1: pubs.h1m@, h2: pubs.h2m@, beta: pubs.beta@ };
        let bs = sk_bits(s0, secret(sk), n);
        assert(peers_system(s1, bs, keys, bases, vars, n, 0) == s1);
        assert(peers_system(s1, bs, keys, bases, vars, n, 1) == system(*cs));
        law_pads_are_bound(s0, pubs.pk1@, secret(sk), keys, bases, vars, n);
    }
}


/// The estimate that generators are made for: of `⌈λ/3⌉` windows with ten gates each, and four
/// gates more, once for the dealer's key and three times for every recipient, and of the bits.
pub proof fn law_capacity_estimate(lambda: nat, peers: nat, windows: nat)
    requires
        3 * windows >= lambda,
        3 * windows <= lambda + 2,
    ensures
        gates_estimate(lambda, peers) == lambda + 10 * windows + 4 + peers * (3 * (10 * windows + 4)
            + 2 * lambda + 4),
{
}

} // verus!
