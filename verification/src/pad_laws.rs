//! What a pad is, in terms of the keys and the hashed points.
use crate::algebra::cong;
use crate::curves::{gin_in_group, gin_log, gin_pow, gout_pow, GinPoint};
use crate::evrf::{pad_made, EvrfWitness, PadOutput};
use crate::field::{fp_order, fs_order};
use crate::zk::evrf_circuit::{peer_keys, Bases};
use crate::zk::evrf_proof::{circuit_binds, committed_vars, evrf_circuit, input_bases, InputsView};
use crate::zk::r1cs::{satisfied, wire, Values};
use crate::zk::sound::{law_witness_pad, pads_on};
use vstd::prelude::*;

verus! {

/// The pad of two keys, of which one has the exponent `log_pk` and the other the secret `sk`,
/// for hashed points with the exponents `log_h1` and `log_h2`: the x-coordinate `k` of the
/// Diffie-Hellman secret is the exponent of the two points, whose x-coordinates are combined
/// with `β`.
pub open spec fn pad_in_exponents(
    sk: int,
    log_pk: int,
    log_h1: int,
    log_h2: int,
    beta: int,
) -> int {
    let k = gin_pow((log_pk * sk) % fs_order()).x;
    (beta * gin_pow((log_h1 * k) % fs_order()).x + gin_pow((log_h2 * k) % fs_order()).x)
        % fp_order()
}

/// The pad that [`crate::evrf::eval_pad`] gives is that of the keys and the points, and its
/// commitment is `g_out^r`.
pub proof fn law_pad_is_that_of_the_keys(
    sk: int,
    pk: GinPoint,
    h1: GinPoint,
    h2: GinPoint,
    beta: int,
    out: PadOutput,
    wit: EvrfWitness,
)
    requires
        gin_in_group(pk),
        gin_in_group(h1),
        gin_in_group(h2),
        pad_made(sk, pk, h1, h2, beta, out, wit),
    ensures
        out.r@ == pad_in_exponents(sk, gin_log(pk), gin_log(h1), gin_log(h2), beta),
        out.r_commit@ == gout_pow(out.r@),
        wit.r@ == out.r@,
        wit.sk@ == sk,
{
    law_witness_pad(sk, pk, Bases { h1, h2, beta }, wit);
}

/// A proved pad is that of the keys and the points. Whatever values satisfy the circuit of
/// the public inputs, the first key is one of the prime-order subgroup, and the value that is
/// committed to for recipient `i` is the pad of its secret key with the key of that
/// recipient, for every recipient.
pub proof fn law_proved_pads_are_those_of_the_keys(
    pubs: InputsView,
    lambda: nat,
    w: Values,
    i: int,
)
    requires
        circuit_binds(pubs, lambda),
        satisfied(evrf_circuit(pubs, lambda), w),
        gin_in_group(pubs.h1m),
        gin_in_group(pubs.h2m),
        0 <= i < pubs.peers.len() <= usize::MAX,
        gin_in_group(pubs.peers[i].pk2@),
    ensures
        gin_in_group(pubs.pk1),
        cong(
            w.v[i],
            pad_in_exponents(
                gin_log(pubs.pk1),
                gin_log(pubs.peers[i].pk2@),
                gin_log(pubs.h1m),
                gin_log(pubs.h2m),
                pubs.beta,
            ),
            fp_order(),
        ),
{
    reveal(circuit_binds);
    let keys = peer_keys(pubs.peers);
    let vars = committed_vars(pubs.peers.len());
    assert(pads_on(w, pubs.pk1, keys, input_bases(pubs), vars));
    assert(keys[i] == pubs.peers[i].pk2@);
    assert(wire(vars[i], w) == w.v[i]);
}

} // verus!
