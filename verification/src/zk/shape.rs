//! Prover and verifier build the same circuit: what a gadget adds depends on the
//! circuit and on the linear combinations that it is given, not on the prover's
//! values.
use crate::curves::GinPoint;
use crate::zk::evrf_circuit::{
    batch_system, peer_system, peers_system, shared_system, sk_bits, Bases,
};
use crate::zk::gadgets::{
    add_const_out, add_const_system, add_var_out, add_var_system, bit_or_zero, bits_out,
    bits_system, canonical_system, compare_chain, decompose_out, decompose_system, offset_hash,
    scalar_mul_out, scalar_mul_system, step_out, step_system, value_bits, window_count, window_out,
    window_system, windows, Point, Scalar, System,
};
use crate::zk::r1cs::Variable;
use vstd::prelude::*;

verus! {

/// The same combinations.
pub open spec fn same_bits(a: Seq<Scalar>, b: Seq<Scalar>) -> bool {
    a.len() == b.len() && forall|i: int|
        0 <= i < a.len() ==> (#[trigger] a[i]).lc == b[i].lc
}

/// The same combinations for both coordinates.
pub open spec fn same_point(p: Point, q: Point) -> bool {
    p.x.lc == q.x.lc && p.y.lc == q.y.lc
}

proof fn lemma_same_add_const(s1: System, s2: System, p1: Point, p2: Point, q: GinPoint)
    requires
        s1.c == s2.c,
        same_point(p1, p2),
    ensures
        add_const_system(s1, p1, q).c == add_const_system(s2, p2, q).c,
        same_point(add_const_out(s1, p1, q), add_const_out(s2, p2, q)),
{
}

proof fn lemma_same_add_var(
    s1: System,
    s2: System,
    p1: Point,
    p2: Point,
    q1: Point,
    q2: Point,
)
    requires
        s1.c == s2.c,
        same_point(p1, p2),
        same_point(q1, q2),
    ensures
        add_var_system(s1, p1, q1).c == add_var_system(s2, p2, q2).c,
        same_point(add_var_out(s1, p1, q1), add_var_out(s2, p2, q2)),
{
}

proof fn lemma_same_bits(s1: System, s2: System, w1: Seq<Option<bool>>, w2: Seq<Option<bool>>)
    requires
        s1.c == s2.c,
        w1.len() == w2.len(),
    ensures
        bits_system(s1, w1).c == bits_system(s2, w2).c,
    decreases w1.len(),
{
    if w1.len() > 0 {
        lemma_same_bits(s1, s2, w1.drop_last(), w2.drop_last());
    }
}

proof fn lemma_same_bits_out(s1: System, s2: System, w1: Seq<Option<bool>>, w2: Seq<Option<bool>>)
    requires
        s1.c == s2.c,
        w1.len() == w2.len(),
    ensures
        same_bits(bits_out(s1, w1), bits_out(s2, w2)),
{
    assert forall|i: int| 0 <= i < w1.len() implies (#[trigger] bits_out(s1, w1)[i]).lc == bits_out(
        s2,
        w2,
    )[i].lc by {
        lemma_same_bits(s1, s2, w1.take(i), w2.take(i));
    }
}

proof fn lemma_same_chain(s1: System, s2: System, b1: Seq<Scalar>, b2: Seq<Scalar>, i: nat)
    requires
        s1.c == s2.c,
        same_bits(b1, b2),
    ensures
        compare_chain(s1, b1, i).0.c == compare_chain(s2, b2, i).0.c,
        compare_chain(s1, b1, i).1.lc == compare_chain(s2, b2, i).1.lc,
    decreases b1.len() - i,
{
    if i < b1.len() {
        lemma_same_chain(s1, s2, b1, b2, i + 1);
        assert(b1[i as int].lc == b2[i as int].lc);
    }
}

proof fn lemma_same_canonical(s1: System, s2: System, v1: Scalar, v2: Scalar, n: nat)
    requires
        s1.c == s2.c,
        v1.lc == v2.lc,
    ensures
        canonical_system(s1, v1, n).c == canonical_system(s2, v2, n).c,
        same_bits(decompose_out(s1, v1, n), decompose_out(s2, v2, n)),
{
    reveal(canonical_system);
    lemma_same_bits(s1, s2, value_bits(v1.w, n), value_bits(v2.w, n));
    lemma_same_bits_out(s1, s2, value_bits(v1.w, n), value_bits(v2.w, n));
    if n >= 255 {
        lemma_same_chain(
            decompose_system(s1, v1, n),
            decompose_system(s2, v2, n),
            decompose_out(s1, v1, n),
            decompose_out(s2, v2, n),
            0,
        );
    }
}

proof fn lemma_same_step(
    s1: System,
    s2: System,
    a1: Point,
    a2: Point,
    x: (Scalar, Scalar, Scalar),
    y: (Scalar, Scalar, Scalar),
    q: GinPoint,
)
    requires
        s1.c == s2.c,
        same_point(a1, a2),
        x.0.lc == y.0.lc,
        x.1.lc == y.1.lc,
        x.2.lc == y.2.lc,
    ensures
        step_system(s1, a1, x.0, x.1, x.2, q).c == step_system(s2, a2, y.0, y.1, y.2, q).c,
        same_point(step_out(s1, a1, x.0, x.1, x.2, q), step_out(s2, a2, y.0, y.1, y.2, q)),
{
    let t = crate::zk::gadgets::multiples(q);
    lemma_same_add_var(
        window_system(s1, x.0, x.1, x.2, t),
        window_system(s2, y.0, y.1, y.2, t),
        a1,
        a2,
        window_out(s1, x.0, x.1, x.2, t),
        window_out(s2, y.0, y.1, y.2, t),
    );
}

proof fn lemma_same_windows(
    s1: System,
    s2: System,
    b1: Seq<Scalar>,
    b2: Seq<Scalar>,
    base: GinPoint,
    offset: GinPoint,
    i: nat,
)
    requires
        s1.c == s2.c,
        same_bits(b1, b2),
    ensures
        windows(s1, b1, base, offset, i).0.c == windows(s2, b2, base, offset, i).0.c,
        same_point(windows(s1, b1, base, offset, i).1, windows(s2, b2, base, offset, i).1),
    decreases i,
{
    if i > 0 {
        let k = (i - 1) as nat;
        lemma_same_windows(s1, s2, b1, b2, base, offset, k);
        assert forall|j: nat| (#[trigger] bit_or_zero(b1, j)).lc == bit_or_zero(b2, j).lc by {
            if j < b1.len() {
                assert(b1[j as int].lc == b2[j as int].lc);
            }
        }
        lemma_same_step(
            windows(s1, b1, base, offset, k).0,
            windows(s2, b2, base, offset, k).0,
            windows(s1, b1, base, offset, k).1,
            windows(s2, b2, base, offset, k).1,
            (bit_or_zero(b1, 3 * k), bit_or_zero(b1, 3 * k + 1), bit_or_zero(b1, 3 * k + 2)),
            (bit_or_zero(b2, 3 * k), bit_or_zero(b2, 3 * k + 1), bit_or_zero(b2, 3 * k + 2)),
            crate::zk::gadgets::window_base(base, k),
        );
    }
}

proof fn lemma_same_scalar_mul(
    s1: System,
    s2: System,
    b1: Seq<Scalar>,
    b2: Seq<Scalar>,
    base: GinPoint,
    offset: GinPoint,
)
    requires
        s1.c == s2.c,
        same_bits(b1, b2),
    ensures
        scalar_mul_system(s1, b1, base, offset).c == scalar_mul_system(s2, b2, base, offset).c,
        same_point(
            scalar_mul_out(s1, b1, base, offset),
            scalar_mul_out(s2, b2, base, offset),
        ),
{
    reveal(scalar_mul_system);
    reveal(scalar_mul_out);
    let n = window_count(b1.len());
    lemma_same_windows(s1, s2, b1, b2, base, offset, n);
    lemma_same_add_const(
        windows(s1, b1, base, offset, n).0,
        windows(s2, b2, base, offset, n).0,
        windows(s1, b1, base, offset, n).1,
        windows(s2, b2, base, offset, n).1,
        crate::curves::gin_neg(offset),
    );
}

proof fn lemma_same_shared(
    s1: System,
    s2: System,
    pk1: GinPoint,
    k1: Option<int>,
    k2: Option<int>,
    n: nat,
)
    requires
        s1.c == s2.c,
    ensures
        shared_system(s1, pk1, k1, n).c == shared_system(s2, pk1, k2, n).c,
        same_bits(sk_bits(s1, k1, n), sk_bits(s2, k2, n)),
{
    reveal(shared_system);
    let (w1, w2) = (value_bits(k1, n), value_bits(k2, n));
    lemma_same_bits(s1, s2, w1, w2);
    lemma_same_bits_out(s1, s2, w1, w2);
    lemma_same_scalar_mul(
        bits_system(s1, w1),
        bits_system(s2, w2),
        sk_bits(s1, k1, n),
        sk_bits(s2, k2, n),
        crate::curves::gin_pow(1),
        offset_hash()->Some_0,
    );
}

proof fn lemma_same_peer(
    s1: System,
    s2: System,
    b1: Seq<Scalar>,
    b2: Seq<Scalar>,
    pk2: GinPoint,
    bases: Bases,
    r_var: Variable,
    n: nat,
)
    requires
        s1.c == s2.c,
        same_bits(b1, b2),
    ensures
        peer_system(s1, b1, pk2, bases, r_var, n).c == peer_system(
            s2,
            b2,
            pk2,
            bases,
            r_var,
            n,
        ).c,
{
    reveal(peer_system);
    let offset = offset_hash()->Some_0;
    lemma_same_scalar_mul(s1, s2, b1, b2, pk2, offset);
    let (u1, u2) = (
        scalar_mul_system(s1, b1, pk2, offset),
        scalar_mul_system(s2, b2, pk2, offset),
    );
    let (p1, p2) = (scalar_mul_out(s1, b1, pk2, offset), scalar_mul_out(s2, b2, pk2, offset));
    lemma_same_canonical(u1, u2, p1.x, p2.x, n);
    let (v1, v2) = (canonical_system(u1, p1.x, n), canonical_system(u2, p2.x, n));
    let (k1, k2) = (decompose_out(u1, p1.x, n), decompose_out(u2, p2.x, n));
    lemma_same_scalar_mul(v1, v2, k1, k2, bases.h1, offset);
    let (w1, w2) = (
        scalar_mul_system(v1, k1, bases.h1, offset),
        scalar_mul_system(v2, k2, bases.h1, offset),
    );
    lemma_same_scalar_mul(w1, w2, k1, k2, bases.h2, offset);
}

proof fn lemma_same_peers(
    s1: System,
    s2: System,
    b1: Seq<Scalar>,
    b2: Seq<Scalar>,
    pks: Seq<GinPoint>,
    bases: Bases,
    r_vars: Seq<Variable>,
    n: nat,
    i: nat,
)
    requires
        s1.c == s2.c,
        same_bits(b1, b2),
    ensures
        peers_system(s1, b1, pks, bases, r_vars, n, i).c == peers_system(
            s2,
            b2,
            pks,
            bases,
            r_vars,
            n,
            i,
        ).c,
    decreases i,
{
    if i > 0 {
        let k = (i - 1) as nat;
        lemma_same_peers(s1, s2, b1, b2, pks, bases, r_vars, n, k);
        lemma_same_peer(
            peers_system(s1, b1, pks, bases, r_vars, n, k),
            peers_system(s2, b2, pks, bases, r_vars, n, k),
            b1,
            b2,
            pks[k as int],
            bases,
            r_vars[k as int],
            n,
        );
    }
}

/// Prover and verifier, starting from the same circuit, build the same circuit: it
/// does not depend on the secret key or on any other value that only the prover
/// knows.
pub proof fn law_prover_and_verifier_build_the_same_circuit(
    prover: System,
    verifier: System,
    pk1: GinPoint,
    sk: Option<int>,
    pks: Seq<GinPoint>,
    bases: Bases,
    r_vars: Seq<Variable>,
    lambda: nat,
)
    requires
        prover.c == verifier.c,
    ensures
        batch_system(prover, pk1, sk, pks, bases, r_vars, lambda).c == batch_system(
            verifier,
            pk1,
            None,
            pks,
            bases,
            r_vars,
            lambda,
        ).c,
{
    lemma_same_shared(prover, verifier, pk1, sk, None, lambda);
    lemma_same_peers(
        shared_system(prover, pk1, sk, lambda),
        shared_system(verifier, pk1, None, lambda),
        sk_bits(prover, sk, lambda),
        sk_bits(verifier, None, lambda),
        pks,
        bases,
        r_vars,
        lambda,
        pks.len(),
    );
}

} // verus!
