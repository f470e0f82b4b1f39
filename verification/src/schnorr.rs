//! Schnorr proof of knowledge of `sk` with `PK = g_in^sk`, for the registration of
//! keys.
//!
//! The proof is bound to the identity of the registrant: a proof that is not could be
//! replayed, and someone could register the key of another party as their own.
use crate::algebra::{cong, lemma_cong_add, lemma_cong_mod, lemma_mod_reduced};
use crate::curves::{
    ext_affine, ext_eq, ext_of, ext_sum, gin_identity, gin_in_group, gin_is_pow, gin_log, gin_mul,
    gin_neg, gin_pow, gin_scale_ext, is_in_prime_subgroup, lemma_ext_eq, lemma_gin_eq,
    lemma_gin_log, Fs, GinAffine, GinPoint,
};
use crate::errors::{GoldenError, GoldenResult};
use crate::field::{fs_order, lemma_fs_order, lemma_fs_range};
use crate::transcript::{
    ev_gin, ev_u64, fs_challenge, transcript_log, TranscriptEvent, TranscriptExt,
};
use merlin::Transcript;
use rand::rngs::StdRng;
use vstd::prelude::*;
use vstd::string::{is_ascii_spec_bytes, StringSliceAdditionalSpecFns};

verus! {

/// `(R = g_in^k, s = k + c·sk)` with `c = H(id ‖ PK ‖ R)`.
#[derive(Clone, Copy, Debug)]
pub struct SchnorrPoK {
    pub commitment: GinAffine,
    pub response: Fs,
}

/// The transcript that a proof's challenge is drawn from.
pub open spec fn pok_log(id: u32, pk: GinPoint, commitment: GinPoint) -> Seq<TranscriptEvent> {
    seq![
        TranscriptEvent::Append {
            label: "dom-sep".spec_bytes(),
            message: "golden-nidkg/schnorr-pok/v1".spec_bytes(),
        },
        ev_u64("id".spec_bytes(), id as u64),
        ev_gin("pk".spec_bytes(), pk),
        ev_gin("R".spec_bytes(), commitment),
    ]
}

/// The challenge of a proof: it depends on the identity, the key and the commitment.
pub open spec fn pok_challenge(id: u32, pk: GinPoint, commitment: GinPoint) -> int {
    fs_challenge(pok_log(id, pk, commitment), "c".spec_bytes())
}

fn challenge(id: u32, pk: &GinAffine, commitment: &GinAffine) -> (r: Fs)
    ensures
        r@ == pok_challenge(id, pk@, commitment@),
{
    proof {
        reveal_strlit("golden-nidkg/schnorr-pok/v1");
        is_ascii_spec_bytes("golden-nidkg/schnorr-pok/v1");
    }
    let mut t = Transcript::new("golden-nidkg/schnorr-pok/v1".as_bytes());
    TranscriptExt::append_u64(&mut t, "id".as_bytes(), id as u64);
    t.append_gin("pk".as_bytes(), pk);
    t.append_gin("R".as_bytes(), commitment);
    assert(transcript_log(t) =~= pok_log(id, pk@, commitment@));
    t.challenge_fs("c".as_bytes())
}

/// The proof with the nonce `k`.
pub open spec fn pok_is(pok: SchnorrPoK, id: u32, sk: int, pk: GinPoint, k: int) -> bool {
    &&& gin_is_pow(pok.commitment@, k)
    &&& pok.response@ == (k + pok_challenge(id, pk, pok.commitment@) * sk) % fs_order()
}

/// The verification equation `g^s = PK^c · R`, in extended coordinates.
pub open spec fn pok_holds(pok: SchnorrPoK, id: u32, pk: GinPoint) -> bool {
    let c = pok_challenge(id, pk, pok.commitment@);
    ext_eq(ext_of(gin_pow(pok.response@)), ext_sum(gin_scale_ext(pk, c), pok.commitment@))
}

/// What is wrong with a proof, if anything: the key is the neutral element, or it is
/// not in the prime-order subgroup, or the equation does not hold.
pub open spec fn pok_error(pok: SchnorrPoK, id: u32, pk: GinPoint) -> Option<GoldenError> {
    if pk == gin_identity() {
        Some(GoldenError::IdentityPublicKey { party: id })
    } else if !gin_in_group(pk) {
        Some(GoldenError::PublicKeyNotInSubgroup { party: id })
    } else if !pok_holds(pok, id, pk) {
        Some(GoldenError::SchnorrPoKFailed { party: id })
    } else {
        None
    }
}

impl SchnorrPoK {
    /// Proves knowledge of `sk` for `PK = g_in^sk`, bound to `id`, with the nonce
    /// `k`, which has to be secret and used once.
    pub fn prove_with(id: u32, sk: &Fs, pk: &GinAffine, k: &Fs) -> (r: Self)
        ensures
            pok_is(r, id, sk@, pk@, k@),
    {
        let commitment = gin_mul(k);
        let c = challenge(id, pk, &commitment);
        let e = c * *sk;
        let response = *k + e;
        proof {
            let m = fs_order();
            lemma_fs_order();
            lemma_cong_mod(c@ * sk@, m);
            lemma_cong_add(k@, k@, e@, c@ * sk@, m);
        }
        SchnorrPoK { commitment, response }
    }

    /// Proves knowledge of `sk` for `PK = g_in^sk`, bound to `id`, with a random
    /// nonce.
    pub fn prove(id: u32, sk: &Fs, pk: &GinAffine, rng: &mut StdRng) -> (r: Self)
        ensures
            exists|k: int| pok_is(r, id, sk@, pk@, k),
    {
        let k = Fs::rand(rng);
        SchnorrPoK::prove_with(id, sk, pk, &k)
    }

    /// Verifies the proof for an identity and a key.
    ///
    /// The key has to be a point of the prime-order subgroup and not the neutral
    /// element: with a component of small order the two parties of a pad would not
    /// get the same secret, and the equation alone does not exclude that.
    pub fn verify(&self, id: u32, pk: &GinAffine) -> (r: GoldenResult<()>)
        ensures
            match pok_error(*self, id, pk@) {
                None => r is Ok,
                Some(e) => r == Err::<(), GoldenError>(e),
            },
            pk@ != gin_identity() && gin_in_group(pk@) && gin_in_group(self.commitment@) ==> (r
                is Ok <==> cong(
                self.response@,
                gin_log(pk@) * pok_challenge(id, pk@, self.commitment@) + gin_log(
                    self.commitment@,
                ),
                fs_order(),
            )),
    {
        if pk.is_zero() {
            return Err(GoldenError::IdentityPublicKey { party: id });
        }
        if !is_in_prime_subgroup(pk) {
            return Err(GoldenError::PublicKeyNotInSubgroup { party: id });
        }
        let c = challenge(id, pk, &self.commitment);
        // g^s == PK^c · R
        let gs = gin_mul(&self.response);
        let lhs = gs.to_proj();
        let pkc = pk.times_proj(&c);
        let rhs = pkc.plus(&self.commitment);
        proof {
            if gin_in_group(self.commitment@) {
                let m = fs_order();
                lemma_fs_order();
                let (l, lr) = (gin_log(pk@), gin_log(self.commitment@));
                let sum = ext_affine(rhs@);
                lemma_gin_log(gs@, self.response@);
                lemma_gin_log(ext_affine(pkc@), (l * c@) % m);
                lemma_gin_log(sum, ((l * c@) % m + lr) % m);
                lemma_gin_eq(gs@, sum);
                lemma_ext_eq(lhs, rhs);
                lemma_cong_mod(l * c@, m);
                lemma_cong_add((l * c@) % m, l * c@, lr, lr, m);
                lemma_fs_range(self.response);
                lemma_mod_reduced(self.response@, m);
            }
        }
        if lhs.same(&rhs) {
            Ok(())
        } else {
            Err(GoldenError::SchnorrPoKFailed { party: id })
        }
    }
}

/// An honest proof verifies: for a key that is not the neutral element, the proof
/// that its owner makes satisfies the verification equation.
pub proof fn law_honest_pok_verifies(pok: SchnorrPoK, id: u32, sk: int, pk: GinPoint, k: int)
    requires
        gin_is_pow(pk, sk),
        pok_is(pok, id, sk, pk, k),
    ensures
        gin_in_group(pk),
        gin_in_group(pok.commitment@),
        cong(
            pok.response@,
            gin_log(pk) * pok_challenge(id, pk, pok.commitment@) + gin_log(pok.commitment@),
            fs_order(),
        ),
{
    let m = fs_order();
    lemma_fs_order();
    lemma_gin_log(pk, sk);
    lemma_gin_log(pok.commitment@, k);
    let c = pok_challenge(id, pk, pok.commitment@);
    lemma_cong_mod(k + c * sk, m);
    assert(c * sk == sk * c) by (nonlinear_arith);
}

/// The registered key of a participant.
#[derive(Clone, Copy, Debug)]
pub struct RegisteredKey {
    pub id: u32,
    pub pk: GinAffine,
    pub pok: SchnorrPoK,
}

/// What is wrong with a registration, if anything.
pub open spec fn key_error(k: RegisteredKey) -> Option<GoldenError> {
    pok_error(k.pok, k.id, k.pk@)
}

impl RegisteredKey {
    /// The registration of the key for `sk`.
    pub fn new(id: u32, sk: &Fs, rng: &mut StdRng) -> (r: Self)
        ensures
            r.id == id,
            gin_is_pow(r.pk@, sk@),
            exists|k: int| pok_is(r.pok, id, sk@, r.pk@, k),
    {
        let pk = gin_mul(sk);
        let pok = SchnorrPoK::prove(id, sk, &pk, rng);
        let r = RegisteredKey { id, pk, pok };
        proof {
            let k = choose|k: int| pok_is(pok, id, sk@, pk@, k);
            assert(pok_is(r.pok, id, sk@, r.pk@, k));
        }
        r
    }

    /// The registration of a random key, with the secret key.
    pub fn fresh(id: u32, rng: &mut StdRng) -> (r: (Self, Fs))
        ensures
            r.0.id == id,
            gin_is_pow(r.0.pk@, r.1@),
            exists|k: int| pok_is(r.0.pok, id, r.1@, r.0.pk@, k),
    {
        let sk = Fs::rand(rng);
        (RegisteredKey::new(id, &sk, rng), sk)
    }

    pub fn verify(&self) -> (r: GoldenResult<()>)
        ensures
            match key_error(*self) {
                None => r is Ok,
                Some(e) => r == Err::<(), GoldenError>(e),
            },
            self.pk@ != gin_identity() && gin_in_group(self.pk@) && gin_in_group(
                self.pok.commitment@,
            ) ==> (r is Ok <==> cong(
                self.pok.response@,
                gin_log(self.pk@) * pok_challenge(self.id, self.pk@, self.pok.commitment@)
                    + gin_log(self.pok.commitment@),
                fs_order(),
            )),
    {
        self.pok.verify(self.id, &self.pk)
    }
}

/// Two keys that may not be registered together: they are equal, or one is the
/// negation of the other.
pub open spec fn keys_collide(a: RegisteredKey, b: RegisteredKey) -> bool {
    a.pk@ == b.pk@ || a.pk@ == gin_neg(b.pk@)
}

/// Entry `(i, j)` comes before `(k, l)`, row by row.
pub open spec fn pair_before(i: int, j: int, k: int, l: int) -> bool {
    i < k || (i == k && j < l)
}

/// No two keys before the pair `(k, l)` collide.
pub open spec fn no_collision_before(registry: Seq<RegisteredKey>, k: int, l: int) -> bool {
    forall|i: int, j: int|
        0 <= i < j < registry.len() && pair_before(i, j, k, l) ==> !#[trigger] keys_collide(
            registry[i],
            registry[j],
        )
}

/// The error of [`verify_pki`] is that of the first bad registration, or, if there
/// is none, that of the first pair of keys that collide.
pub open spec fn pki_error(registry: Seq<RegisteredKey>, e: GoldenError) -> bool {
    ||| exists|i: int|
        {
            &&& 0 <= i < registry.len()
            &&& #[trigger] key_error(registry[i]) == Some(e)
            &&& forall|k: int| 0 <= k < i ==> #[trigger] key_error(registry[k]) is None
        }
    ||| {
        &&& forall|k: int| 0 <= k < registry.len() ==> #[trigger] key_error(registry[k]) is None
        &&& exists|i: int, j: int|
            {
                &&& 0 <= i < j < registry.len()
                &&& #[trigger] keys_collide(registry[i], registry[j])
                &&& no_collision_before(registry, i, j)
                &&& e == GoldenError::PkiKeyCollision { a: registry[i].id, b: registry[j].id }
            }
    }
}

/// Every registration is good, and no two keys collide.
pub open spec fn pki_ok(registry: Seq<RegisteredKey>) -> bool {
    &&& forall|k: int| 0 <= k < registry.len() ==> #[trigger] key_error(registry[k]) is None
    &&& forall|i: int, j: int|
        0 <= i < j < registry.len() ==> !#[trigger] keys_collide(registry[i], registry[j])
}

/// Verifies all registrations: each proof, and that no two keys are equal or
/// negations of each other.
pub fn verify_pki(registry: &[RegisteredKey]) -> (r: GoldenResult<()>)
    ensures
        match r {
            Ok(_) => pki_ok(registry@),
            Err(e) => !pki_ok(registry@) && pki_error(registry@, e),
        },
{
    let mut k: usize = 0;
    while k < registry.len()
        invariant
            k <= registry@.len(),
            forall|l: int| 0 <= l < k ==> #[trigger] key_error(registry@[l]) is None,
        decreases registry@.len() - k,
    {
        match registry[k].verify() {
            Ok(_) => {},
            Err(e) => {
                assert(key_error(registry@[k as int]) == Some(e));
                return Err(e);
            },
        }
        k = k + 1;
    }
    let mut i: usize = 0;
    while i < registry.len()
        invariant
            i <= registry@.len(),
            forall|l: int|
                0 <= l < registry@.len() ==> #[trigger] key_error(registry@[l]) is None,
            no_collision_before(registry@, i as int, 0),
        decreases registry@.len() - i,
    {
        let mut j: usize = i + 1;
        while j < registry.len()
            invariant
                i < registry@.len(),
                i < j <= registry@.len(),
                forall|l: int|
                    0 <= l < registry@.len() ==> #[trigger] key_error(registry@[l]) is None,
                no_collision_before(registry@, i as int, j as int),
            decreases registry@.len() - j,
        {
            let (a, b) = (&registry[i], &registry[j]);
            if a.pk == b.pk || a.pk == b.pk.negate() {
                assert(keys_collide(registry@[i as int], registry@[j as int]));
                return Err(GoldenError::PkiKeyCollision { a: a.id, b: b.id });
            }
            proof {
                assert(!keys_collide(registry@[i as int], registry@[j as int]));
                assert forall|x: int, y: int|
                    0 <= x < y < registry@.len() && pair_before(
                        x,
                        y,
                        i as int,
                        j + 1,
                    ) implies !#[trigger] keys_collide(registry@[x], registry@[y]) by {
                    if !pair_before(x, y, i as int, j as int) {
                        assert(x == i && y == j);
                    }
                }
            }
            j = j + 1;
        }
        proof {
            assert forall|x: int, y: int|
                0 <= x < y < registry@.len() && pair_before(
                    x,
                    y,
                    i + 1,
                    0,
                ) implies !#[trigger] keys_collide(registry@[x], registry@[y]) by {
                assert(pair_before(x, y, i as int, j as int));
            }
        }
        i = i + 1;
    }
    proof {
        assert forall|x: int, y: int| 0 <= x < y < registry@.len() implies !#[trigger] keys_collide(
            registry@[x],
            registry@[y],
        ) by {
            assert(pair_before(x, y, i as int, 0));
        }
    }
    Ok(())
}

} // verus!
