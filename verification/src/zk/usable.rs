//! Whether the points of the pad circuit can be computed.
//!
//! On the curve every sum has coordinates. For a pair of coordinates that is no point of the
//! curve, a denominator of the addition formulas may vanish; the circuit is then not built.
use crate::curves::{gin_on_curve, Fp, Fs, GinAffine, GinPoint};
use crate::zk::evrf_circuit::{
    digits, k_digits, peer_keys, peer_usable, peers_usable, secret, secret_bits, Bases,
    EvrfPeerInputs,
};
use crate::zk::gadgets::{
    bit_value, gins, lemma_neg_on_curve, mul_point, mul_usable, multiples_of, next_window,
    offset_hash, step_usable, value_bits, value_or_zero, walk, window_base, window_count,
    window_entry, window_usable,
};
use vstd::prelude::*;

verus! {

/// Bits as numbers.
pub open spec fn bit_values(w: Seq<Option<bool>>) -> Seq<Option<int>> {
    Seq::new(
        w.len(),
        |i: int|
            match w[i] {
                Some(b) => Some(bit_value(b)),
                None => None,
            },
    )
}

/// A point that may be known.
pub open spec fn maybe_point(p: Option<GinAffine>) -> Option<GinPoint> {
    match p {
        Some(q) => Some(q@),
        None => None,
    }
}

/// Whether the multiples of `q` up to `8q` have coordinates.
fn window_is_usable(q: &GinAffine) -> (r: bool)
    ensures
        r == window_usable(q@),
{
    if q.is_on_curve() {
        return true;
    }
    let q2 = match q.try_double() {
        Some(p) => p,
        None => {
            return false;
        },
    };
    let q4 = match q2.try_double() {
        Some(p) => p,
        None => {
            return false;
        },
    };
    let q6 = match q4.try_plus(&q2) {
        Some(p) => p,
        None => {
            return false;
        },
    };
    q2.try_plus(q).is_some() && q4.try_plus(q).is_some() && q6.try_plus(q).is_some()
        && q4.try_double().is_some()
}

/// Bit `i`; zero behind the end.
fn bit_at(w: &[Option<bool>], i: usize) -> (r: Option<usize>)
    ensures
        (match r {
            Some(b) => Some(b as int),
            None => None,
        }) == value_or_zero(bit_values(w@), i as nat),
        r matches Some(b) ==> b <= 1,
{
    if i < w.len() {
        match w[i] {
            Some(b) => Some(if b {
                1
            } else {
                0
            }),
            None => None,
        }
    } else {
        Some(0)
    }
}

/// The multiple of `q` that window `k` adds, where its bits are known.
fn entry_at(w: &[Option<bool>], Ghost(base): Ghost<GinPoint>, q: &GinAffine, k: usize) -> (r: Option<
    GinAffine,
>)
    requires
        3 * k + 3 <= usize::MAX,
        q@ == window_base(base, k as nat),
        window_usable(q@),
    ensures
        maybe_point(r) == window_entry(bit_values(w@), base, k as nat),
        gin_on_curve(q@) ==> (r matches Some(t) ==> gin_on_curve(t@)),
{
    match (bit_at(w, 3 * k), bit_at(w, 3 * k + 1), bit_at(w, 3 * k + 2)) {
        (Some(x), Some(y), Some(z)) => {
            let table = multiples_of(q);
            let i: usize = x + 2 * y + 4 * z;
            assert(gins(table@)[i as int] == table@[i as int]@);
            Some(table[i])
        },
        _ => None,
    }
}

/// The point of a scalar multiplication, where its bits are known; `None` where it cannot be
/// computed.
fn try_multiple(w: &[Option<bool>], base: &GinAffine, offset: &GinAffine) -> (r: Option<
    Option<GinAffine>,
>)
    requires
        w@.len() + 3 <= usize::MAX,
        gin_on_curve(offset@),
    ensures
        r is Some <==> mul_usable(bit_values(w@), base@, offset@),
        r matches Some(p) ==> maybe_point(p) == mul_point(bit_values(w@), base@, offset@),
{
    let ghost ws = bit_values(w@);
    let ghost n = window_count(w@.len());
    let chunks: usize = (w.len() + 2) / 3;
    let mut q = *base;
    let mut acc: Option<GinAffine> = Some(*offset);
    let mut k: usize = 0;
    while k < chunks
        invariant
            k <= chunks,
            chunks == n,
            n == window_count(w@.len()),
            w@.len() + 3 <= usize::MAX,
            ws == bit_values(w@),
            ws.len() == w@.len(),
            gin_on_curve(offset@),
            q@ == window_base(base@, k as nat),
            gin_on_curve(base@) ==> gin_on_curve(q@),
            maybe_point(acc) == walk(ws, base@, offset@, k as nat),
            gin_on_curve(base@) ==> (acc matches Some(a) ==> gin_on_curve(a@)),
            forall|j: nat| j < k ==> window_usable(#[trigger] window_base(base@, j)),
            forall|j: nat| j < k ==> #[trigger] step_usable(ws, base@, offset@, j),
        decreases chunks - k,
    {
        if !window_is_usable(&q) {
            assert(!window_usable(window_base(base@, k as nat)));
            return None;
        }
        let t = entry_at(w, Ghost(base@), &q, k);
        acc = match (acc, t) {
            (Some(a), Some(t)) => match a.try_plus(&t) {
                Some(s) => Some(s),
                None => {
                    assert(!step_usable(ws, base@, offset@, k as nat));
                    return None;
                },
            },
            _ => None,
        };
        q = next_window(&q);
        k = k + 1;
    }
    match acc {
        Some(a) => {
            let neg = offset.negate();
            proof {
                lemma_neg_on_curve(offset@);
            }
            match a.try_plus(&neg) {
                Some(p) => Some(Some(p)),
                None => None,
            }
        },
        None => Some(None),
    }
}

/// The bits of a value that may be known.
fn value_flags(v: Option<Fp>, n: usize) -> (r: Vec<Option<bool>>)
    ensures
        r@ == value_bits(
            match v {
                Some(x) => Some(x@),
                None => None,
            },
            n as nat,
        ),
{
    let mut w: Vec<Option<bool>> = Vec::with_capacity(n);
    let ghost x = match v {
        Some(x) => Some(x@),
        None => None,
    };
    let mut i: usize = 0;
    while i < n
        invariant
            i <= n,
            x == (match v {
                Some(x) => Some(x@),
                None => None,
            }),
            w@ == value_bits(x, i as nat),
        decreases n - i,
    {
        w.push(
            match v {
                Some(f) => Some(f.bit(i)),
                None => None,
            },
        );
        assert(w@ =~= value_bits(x, (i + 1) as nat));
        i = i + 1;
    }
    w
}

proof fn lemma_digits(v: Option<int>, n: nat)
    ensures
        bit_values(value_bits(v, n)) == digits(v, n),
{
    assert(bit_values(value_bits(v, n)) =~= digits(v, n));
}

/// Whether the part for one recipient can be computed.
fn peer_is_usable(
    w: &[Option<bool>],
    pk2: &GinAffine,
    h1m: &GinAffine,
    h2m: &GinAffine,
    offset: &GinAffine,
    Ghost(beta): Ghost<int>,
) -> (r: bool)
    requires
        w@.len() + 3 <= usize::MAX,
        gin_on_curve(offset@),
        Some(offset@) == offset_hash(),
    ensures
        r == peer_usable(
            bit_values(w@),
            pk2@,
            Bases { h1: h1m@, h2: h2m@, beta },
            w@.len(),
        ),
{
    if pk2.is_on_curve() && h1m.is_on_curve() && h2m.is_on_curve() {
        return true;
    }
    match try_multiple(w, pk2, offset) {
        Some(s) => {
            let x = match s {
                Some(p) => Some(p.x),
                None => None,
            };
            let k = value_flags(x, w.len());
            proof {
                let v = match x {
                    Some(f) => Some(f@),
                    None => None,
                };
                lemma_digits(v, w@.len());
                assert(bit_values(k@) == k_digits(bit_values(w@), pk2@, w@.len()));
            }
            try_multiple(k.as_slice(), h1m, offset).is_some() && try_multiple(
                k.as_slice(),
                h2m,
                offset,
            ).is_some()
        },
        None => false,
    }
}

/// Whether the parts for all recipients can be computed.
pub fn peers_are_usable(
    sk: Option<&Fs>,
    peers: &[EvrfPeerInputs],
    h1m: &GinAffine,
    h2m: &GinAffine,
    beta: &Fp,
    offset: &GinAffine,
    lambda: usize,
) -> (r: bool)
    requires
        lambda + 3 <= usize::MAX,
        gin_on_curve(offset@),
        Some(offset@) == offset_hash(),
    ensures
        r == peers_usable(
            secret(sk),
            peer_keys(peers@),
            Bases { h1: h1m@, h2: h2m@, beta: beta@ },
            lambda as nat,
        ),
{
    let w = secret_bits(sk, lambda);
    let ghost keys = peer_keys(peers@);
    let ghost bases = Bases { h1: h1m@, h2: h2m@, beta: beta@ };
    proof {
        lemma_digits(secret(sk), lambda as nat);
    }
    let mut i: usize = 0;
    while i < peers.len()
        invariant
            i <= peers@.len(),
            lambda + 3 <= usize::MAX,
            w@.len() == lambda,
            bit_values(w@) == digits(secret(sk), lambda as nat),
            gin_on_curve(offset@),
            Some(offset@) == offset_hash(),
            keys == peer_keys(peers@),
            bases == (Bases { h1: h1m@, h2: h2m@, beta: beta@ }),
            forall|k: int|
                0 <= k < i ==> peer_usable(
                    digits(secret(sk), lambda as nat),
                    #[trigger] keys[k],
                    bases,
                    lambda as nat,
                ),
        decreases peers@.len() - i,
    {
        assert(keys[i as int] == peers@[i as int].pk2@);
        if !peer_is_usable(w.as_slice(), &peers[i].pk2, h1m, h2m, offset, Ghost(beta@)) {
            return false;
        }
        i = i + 1;
    }
    true
}

} // verus!
