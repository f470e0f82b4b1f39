//! Two-party exponent VRF.
//!
//! A one-time pad `r ∈ F_p` comes from the Diffie-Hellman secret of two keys:
//!
//! ```text
//!   S  = PK'^{sk}                          (Jubjub point)
//!   k  = int(S.x)                          (reduced modulo s)
//!   T1 = H₁(sid, msg)^k                    (Jubjub points)
//!   T2 = H₂(sid, msg)^k
//!   r  = β · int(T1.x) + int(T2.x)  mod p
//!   R  = g_out^r                           (G1 point)
//! ```
//!
//! Both parties get the same pad for a message. `R` commits to `r`; a proof in `zk`
//! ties it to the two public keys and the message.
use crate::algebra::{lemma_cong_add, lemma_cong_mod};
use crate::curves::{
    fp_to_fs, gin_identity, gin_in_group, gin_is_pow, gin_log, gin_on_curve, gin_scale, gout_is_pow,
    gout_mul, lemma_gin_log, scale_defined, x_coord, Fp, Fs, GinAffine, GinPoint, GoutAffine,
};
use crate::field::{fp_order, fs_order, lemma_fp_order};
use crate::hash_to_curve::{field_hash, h1, h1_point, h2, h2_point, hash_to_fp, try_h1, try_h2};
use rand::rngs::StdRng;
use rand::RngCore;
use vstd::prelude::*;
use vstd::std_specs::cmp::PartialEqSpecImpl;
use vstd::string::StringSliceAdditionalSpecFns;

verus! {

/// `rand::RngCore::fill_bytes`: 32 random bytes.
#[verifier::external_body]
pub(crate) fn random_bytes(rng: &mut StdRng) -> [u8; 32] {
    let mut b = [0u8; 32];
    rng.fill_bytes(&mut b);
    b
}

/// A session identifier. It goes into the hashes of the pads and into the proofs, so
/// that nothing can be replayed in another session.
#[derive(Clone, Copy, Debug)]
pub struct SessionId(pub [u8; 32]);

impl View for SessionId {
    type V = Seq<u8>;

    open spec fn view(&self) -> Seq<u8> {
        self.0@
    }
}

impl PartialEq for SessionId {
    fn eq(&self, other: &SessionId) -> (r: bool) {
        let mut i: usize = 0;
        while i < 32
            invariant
                i <= 32,
                forall|k: int| 0 <= k < i ==> self.0@[k] == #[trigger] other.0@[k],
            decreases 32 - i,
        {
            if self.0[i] != other.0[i] {
                assert(self.0@[i as int] != other.0@[i as int]);
                return false;
            }
            i = i + 1;
        }
        assert(self.0@ =~= other.0@);
        true
    }
}

impl PartialEqSpecImpl for SessionId {
    open spec fn obeys_eq_spec() -> bool {
        true
    }

    open spec fn eq_spec(&self, other: &SessionId) -> bool {
        self@ == other@
    }
}

impl Eq for SessionId {

}

impl SessionId {
    /// A random identifier: 32 bytes of the generator, any of which can come out.
    pub fn random(rng: &mut StdRng) -> SessionId {
        SessionId(random_bytes(rng))
    }
}

/// The public constant `β`. It is fixed before any key is made; a hash of a public
/// string will do.
#[derive(Clone, Copy, Debug)]
pub struct Beta(pub Fp);

impl View for Beta {
    type V = int;

    open spec fn view(&self) -> int {
        self.0@
    }
}

impl PartialEq for Beta {
    fn eq(&self, other: &Beta) -> (r: bool) {
        self.0 == other.0
    }
}

impl PartialEqSpecImpl for Beta {
    open spec fn obeys_eq_spec() -> bool {
        true
    }

    open spec fn eq_spec(&self, other: &Beta) -> bool {
        self@ == other@
    }
}

impl Eq for Beta {

}

impl Beta {
    /// `β` from a public string.
    pub fn from_seed(seed: &[u8]) -> (r: Self)
        ensures
            r@ == field_hash("beta".spec_bytes(), seed@),
    {
        Beta(hash_to_fp("beta".as_bytes(), seed))
    }
}

/// All the public points that prover, verifier and circuit need.
#[derive(Clone, Debug)]
pub struct EvrfPublicInputs {
    /// The prover's key.
    pub pk1: GinAffine,
    /// The peer's key.
    pub pk2: GinAffine,
    /// `H₁(sid, msg)`.
    pub h1m: GinAffine,
    /// `H₂(sid, msg)`.
    pub h2m: GinAffine,
    pub beta: Fp,
    /// `R = g_out^r`.
    pub r_commit: GoutAffine,
}

/// The pad `r`, which is secret, and its commitment `R = g_out^r`.
#[derive(Clone)]
pub struct PadOutput {
    pub r: Fp,
    pub r_commit: GoutAffine,
}

/// What the dealer needs to prove that a pad is the right one. All of it is secret.
#[derive(Clone)]
pub struct EvrfWitness {
    pub sk: Fs,
    pub s: GinAffine,
    pub k: Fs,
    pub t1: GinAffine,
    pub t2: GinAffine,
    pub r1: Fp,
    pub r2: Fp,
    pub r: Fp,
}

// ─── the pad ────────────────────────────────────────────────────────────────

/// Whether there is a pad for the key `pk`: the secret has coordinates, which is so for every
/// point of the curve, it is not the neutral element, and both hashes exist. With a key of
/// the prime-order subgroup that is not the neutral element, and a secret key that is not
/// zero, the secret never is.
pub open spec fn has_pad(pk: GinPoint, sk: int, sid: Seq<u8>, msg: Seq<u8>) -> bool {
    &&& scale_defined(pk, sk)
    &&& (gin_in_group(pk) && pk != gin_identity() && sk != 0) || gin_scale(pk, sk) != gin_identity()
    &&& h1_point(sid, msg) is Some
    &&& h2_point(sid, msg) is Some
}

/// The witness is that of the pad for the secret key `sk`, the key `pk` and the
/// points `h1` and `h2`. In the prime-order subgroup the points have the exponents
/// that one expects.
pub open spec fn witness_made(
    sk: int,
    pk: GinPoint,
    h1: GinPoint,
    h2: GinPoint,
    beta: int,
    wit: EvrfWitness,
) -> bool {
    &&& wit.sk@ == sk
    &&& wit.s@ == gin_scale(pk, sk)
    &&& wit.k@ == wit.s@.x % fs_order()
    &&& wit.t1@ == gin_scale(h1, wit.k@)
    &&& wit.t2@ == gin_scale(h2, wit.k@)
    &&& wit.r1@ == wit.t1@.x
    &&& wit.r2@ == wit.t2@.x
    &&& wit.r@ == (beta * wit.r1@ + wit.r2@) % fp_order()
    &&& gin_on_curve(pk) ==> gin_on_curve(wit.s@)
    &&& gin_in_group(pk) ==> gin_is_pow(wit.s@, (gin_log(pk) * sk) % fs_order())
    &&& gin_in_group(h1) ==> gin_is_pow(wit.t1@, (gin_log(h1) * wit.k@) % fs_order())
    &&& gin_in_group(h2) ==> gin_is_pow(wit.t2@, (gin_log(h2) * wit.k@) % fs_order())
}

/// The output is the pad of the witness, with its commitment.
pub open spec fn pad_made(
    sk: int,
    pk: GinPoint,
    h1: GinPoint,
    h2: GinPoint,
    beta: int,
    out: PadOutput,
    wit: EvrfWitness,
) -> bool {
    &&& witness_made(sk, pk, h1, h2, beta, wit)
    &&& out.r@ == wit.r@
    &&& gout_is_pow(out.r_commit@, out.r@)
}

/// The pad of a secret key and the key of the other party, for the points of the
/// message.
pub open spec fn pad_value(sk: int, pk: GinPoint, h1: GinPoint, h2: GinPoint, beta: int) -> int {
    let k = gin_scale(pk, sk).x % fs_order();
    (beta * gin_scale(h1, k).x + gin_scale(h2, k).x) % fp_order()
}

/// The pad for the points `H₁(sid, msg)` and `H₂(sid, msg)`.
fn pad_from_points(sk: &Fs, pk_other: &GinAffine, h1m: &GinAffine, h2m: &GinAffine, beta: &Beta) -> (r:
    (PadOutput, EvrfWitness))
    requires
        scale_defined(pk_other@, sk@),
        gin_on_curve(h1m@),
        gin_on_curve(h2m@),
    ensures
        pad_made(sk@, pk_other@, h1m@, h2m@, beta@, r.0, r.1),
{
    let s = pk_other.times(sk);
    // k = int(S.x), reduced modulo s
    let k0 = x_coord(&s);
    let k = fp_to_fs(&k0);
    let t1 = h1m.times(&k);
    let t2 = h2m.times(&k);
    let r1 = x_coord(&t1);
    let r2 = x_coord(&t2);
    let br = beta.0 * r1;
    let r = br + r2;
    proof {
        let m = fp_order();
        lemma_fp_order();
        lemma_cong_mod(beta@ * r1@, m);
        lemma_cong_add(br@, beta@ * r1@, r2@, r2@, m);
    }
    let r_commit = gout_mul(&r);
    (PadOutput { r, r_commit }, EvrfWitness { sk: *sk, s, k, t1, t2, r1, r2, r })
}

/// The pad for a secret key, the key of the other party, a session and a message.
///
/// The secret must not be the neutral element, whose pad is known to everyone; the
/// registration of keys excludes that.
pub fn eval_pad(sk: &Fs, pk_other: &GinAffine, sid: &SessionId, msg: &[u8], beta: &Beta) -> (r: (
    PadOutput,
    EvrfWitness,
))
    requires
        has_pad(pk_other@, sk@, sid@, msg@),
    ensures
        pad_made(
            sk@,
            pk_other@,
            h1_point(sid@, msg@)->Some_0,
            h2_point(sid@, msg@)->Some_0,
            beta@,
            r.0,
            r.1,
        ),
        gin_in_group(h1_point(sid@, msg@)->Some_0),
        gin_in_group(h2_point(sid@, msg@)->Some_0),
{
    let h1m = h1(&sid.0, msg);
    let h2m = h2(&sid.0, msg);
    pad_from_points(sk, pk_other, &h1m, &h2m, beta)
}

/// [`eval_pad`], with `None` where there is no pad.
pub fn try_eval_pad(sk: &Fs, pk_other: &GinAffine, sid: &SessionId, msg: &[u8], beta: &Beta) -> (r:
    Option<(PadOutput, EvrfWitness)>)
    ensures
        r is Some <==> has_pad(pk_other@, sk@, sid@, msg@),
        r matches Some(p) ==> pad_made(
            sk@,
            pk_other@,
            h1_point(sid@, msg@)->Some_0,
            h2_point(sid@, msg@)->Some_0,
            beta@,
            p.0,
            p.1,
        ) && gin_in_group(h1_point(sid@, msg@)->Some_0) && gin_in_group(
            h2_point(sid@, msg@)->Some_0,
        ),
{
    match pk_other.try_times(sk) {
        Some(s) => if s.is_zero() {
            return None;
        },
        None => {
            return None;
        },
    }
    if try_h1(&sid.0, msg).is_none() || try_h2(&sid.0, msg).is_none() {
        return None;
    }
    Some(eval_pad(sk, pk_other, sid, msg, beta))
}

/// The public inputs for a sender, a recipient and a message.
pub fn public_inputs(
    pk1: &GinAffine,
    pk2: &GinAffine,
    sid: &SessionId,
    msg: &[u8],
    beta: &Beta,
    r_commit: &GoutAffine,
) -> (r: EvrfPublicInputs)
    requires
        h1_point(sid@, msg@) is Some,
        h2_point(sid@, msg@) is Some,
    ensures
        r.pk1@ == pk1@,
        r.pk2@ == pk2@,
        Some(r.h1m@) == h1_point(sid@, msg@),
        Some(r.h2m@) == h2_point(sid@, msg@),
        gin_in_group(r.h1m@) && gin_on_curve(r.h1m@),
        gin_in_group(r.h2m@) && gin_on_curve(r.h2m@),
        r.beta@ == beta@,
        r.r_commit@ == r_commit@,
{
    EvrfPublicInputs {
        pk1: *pk1,
        pk2: *pk2,
        h1m: h1(&sid.0, msg),
        h2m: h2(&sid.0, msg),
        beta: beta.0,
        r_commit: *r_commit,
    }
}

/// [`public_inputs`], with `None` where one of the hashes does not exist.
pub fn try_public_inputs(
    pk1: &GinAffine,
    pk2: &GinAffine,
    sid: &SessionId,
    msg: &[u8],
    beta: &Beta,
    r_commit: &GoutAffine,
) -> (r: Option<EvrfPublicInputs>)
    ensures
        r is Some <==> h1_point(sid@, msg@) is Some && h2_point(sid@, msg@) is Some,
        r matches Some(p) ==> {
            &&& p.pk1@ == pk1@
            &&& p.pk2@ == pk2@
            &&& Some(p.h1m@) == h1_point(sid@, msg@)
            &&& Some(p.h2m@) == h2_point(sid@, msg@)
            &&& p.beta@ == beta@
            &&& p.r_commit@ == r_commit@
        },
{
    if try_h1(&sid.0, msg).is_none() || try_h2(&sid.0, msg).is_none() {
        return None;
    }
    Some(public_inputs(pk1, pk2, sid, msg, beta, r_commit))
}

/// Two parties get the same pad for a message: the Diffie-Hellman secret is the same
/// from both sides, so the pads and their commitments are.
pub proof fn law_pad_is_symmetric(
    sk1: int,
    pk1: GinPoint,
    sk2: int,
    pk2: GinPoint,
    h1: GinPoint,
    h2: GinPoint,
    beta: int,
    out1: PadOutput,
    wit1: EvrfWitness,
    out2: PadOutput,
    wit2: EvrfWitness,
)
    requires
        gin_is_pow(pk1, sk1),
        gin_is_pow(pk2, sk2),
        pad_made(sk1, pk2, h1, h2, beta, out1, wit1),
        pad_made(sk2, pk1, h1, h2, beta, out2, wit2),
    ensures
        wit1.s@ == wit2.s@,
        out1.r@ == out2.r@,
        out1.r_commit@ == out2.r_commit@,
{
    lemma_gin_log(pk1, sk1);
    lemma_gin_log(pk2, sk2);
    assert(sk1 * sk2 == sk2 * sk1) by (nonlinear_arith);
}

/// Every two parties with keys that are not neutral have a pad for a message, wherever the
/// message has its hashes, and it is the same one from both sides.
pub proof fn law_two_keys_have_one_pad(
    sk1: int,
    pk1: GinPoint,
    sk2: int,
    pk2: GinPoint,
    sid: Seq<u8>,
    msg: Seq<u8>,
    beta: int,
)
    requires
        gin_is_pow(pk1, sk1),
        gin_is_pow(pk2, sk2),
        sk1 != 0,
        sk2 != 0,
        h1_point(sid, msg) is Some,
        h2_point(sid, msg) is Some,
    ensures
        has_pad(pk2, sk1, sid, msg),
        has_pad(pk1, sk2, sid, msg),
        forall|out1: PadOutput, wit1: EvrfWitness, out2: PadOutput, wit2: EvrfWitness|
            #[trigger] pad_made(
                sk1,
                pk2,
                h1_point(sid, msg)->Some_0,
                h2_point(sid, msg)->Some_0,
                beta,
                out1,
                wit1,
            ) && #[trigger] pad_made(
                sk2,
                pk1,
                h1_point(sid, msg)->Some_0,
                h2_point(sid, msg)->Some_0,
                beta,
                out2,
                wit2,
            ) ==> out1.r@ == out2.r@ && out1.r_commit@ == out2.r_commit@,
{
    let (h1, h2) = (h1_point(sid, msg)->Some_0, h2_point(sid, msg)->Some_0);
    lemma_gin_log(pk1, sk1);
    lemma_gin_log(pk2, sk2);
    assert forall|out1: PadOutput, wit1: EvrfWitness, out2: PadOutput, wit2: EvrfWitness|
        #[trigger] pad_made(sk1, pk2, h1, h2, beta, out1, wit1) && #[trigger] pad_made(
            sk2,
            pk1,
            h1,
            h2,
            beta,
            out2,
            wit2,
        ) implies out1.r@ == out2.r@ && out1.r_commit@ == out2.r_commit@ by {
        law_pad_is_symmetric(sk1, pk1, sk2, pk2, h1, h2, beta, out1, wit1, out2, wit2);
    }
}

} // verus!
