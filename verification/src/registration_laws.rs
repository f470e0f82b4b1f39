//! When registrations are accepted, one by one and together.
use crate::binding_laws::{law_registration_challenge, registration_events};
use crate::curves::{
    ext_eq, ext_of, ext_sum, gin_identity, gin_in_group, gin_pow, gin_scale_ext, GinPoint,
};
use crate::errors::{GoldenError, GoldenResult};
use crate::field::{fp_order, fs_order, le_value};
use crate::schnorr::{key_error, pki_error, pki_ok, pok_is, RegisteredKey, SchnorrPoK};
use crate::transcript::transcript_challenge;
use vstd::prelude::*;
use vstd::string::StringSliceAdditionalSpecFns;

verus! {

/// The equation `g^s = PK^c · R` of a registration, with the challenge that is drawn from a
/// transcript of the identity, the key and the commitment.
pub open spec fn equation_holds(k: RegisteredKey) -> bool {
    let c = le_value(
        transcript_challenge(
            registration_events(k.id, k.pk@, k.pok.commitment@),
            "c".spec_bytes(),
            64,
        ),
    ) % fs_order();
    ext_eq(
        ext_of(gin_pow(k.pok.response@)),
        ext_sum(gin_scale_ext(k.pk@, c), k.pok.commitment@),
    )
}

/// A registration is in order exactly where its key is a point of the prime-order subgroup
/// other than the neutral element, and its equation holds. An error names the registrant, and
/// what is wrong.
pub proof fn law_registration_is_accepted(k: RegisteredKey)
    ensures
        key_error(k) is None <==> k.pk@ != gin_identity() && gin_in_group(k.pk@) && equation_holds(
            k,
        ),
        key_error(k) matches Some(e) ==> match e {
            GoldenError::IdentityPublicKey { party } => party == k.id && k.pk@ == gin_identity(),
            GoldenError::PublicKeyNotInSubgroup { party } => party == k.id && !gin_in_group(k.pk@),
            GoldenError::SchnorrPoKFailed { party } => party == k.id && !equation_holds(k),
            _ => false,
        },
{
    law_registration_challenge(k.id, k.pk@, k.pok.commitment@);
}

/// Registrations are accepted together exactly where each is in order, and no two keys,
/// wherever they stand, are equal or negations of each other.
pub proof fn law_registry_is_accepted(registry: Seq<RegisteredKey>, res: GoldenResult<()>)
    requires
        match res {
            Ok(_) => pki_ok(registry),
            Err(e) => !pki_ok(registry) && pki_error(registry, e),
        },
    ensures
        res is Ok <==> {
            &&& forall|k: int|
                0 <= k < registry.len() ==> (#[trigger] registry[k]).pk@ != gin_identity()
                    && gin_in_group(registry[k].pk@) && equation_holds(registry[k])
            &&& forall|i: int, j: int|
                0 <= i < j < registry.len() ==> (#[trigger] registry[i]).pk@ != (
                #[trigger] registry[j]).pk@ && registry[i].pk@ != (GinPoint {
                    x: (-registry[j].pk@.x) % fp_order(),
                    y: registry[j].pk@.y,
                })
        },
        res matches Err(GoldenError::PkiKeyCollision { a, b }) ==> exists|i: int, j: int|
            0 <= i < j < registry.len() && (#[trigger] registry[i]).id == a && (
            #[trigger] registry[j]).id == b && (registry[i].pk@ == registry[j].pk@
                || registry[i].pk@ == (GinPoint {
                x: (-registry[j].pk@.x) % fp_order(),
                y: registry[j].pk@.y,
            })),
{
    assert forall|k: int| 0 <= k < registry.len() implies (#[trigger] key_error(registry[k]) is None
        <==> registry[k].pk@ != gin_identity() && gin_in_group(registry[k].pk@) && equation_holds(
        registry[k],
    )) by {
        law_registration_is_accepted(registry[k]);
    }
    if res is Ok {
        assert forall|k: int| 0 <= k < registry.len() implies (#[trigger] registry[k]).pk@
            != gin_identity() && gin_in_group(registry[k].pk@) && equation_holds(registry[k]) by {
            assert(key_error(registry[k]) is None);
        }
        assert forall|i: int, j: int| 0 <= i < j < registry.len() implies (
        #[trigger] registry[i]).pk@ != (#[trigger] registry[j]).pk@ && registry[i].pk@ != (
        GinPoint { x: (-registry[j].pk@.x) % fp_order(), y: registry[j].pk@.y }) by {
            assert(!crate::schnorr::keys_collide(registry[i], registry[j]));
        }
    }
    if res is Err && res->Err_0 is PkiKeyCollision {
        assert forall|k: int| 0 <= k < registry.len() implies #[trigger] key_error(registry[k])
            != Some(res->Err_0) by {
            law_registration_is_accepted(registry[k]);
        }
        let e = res->Err_0;
        let (i, j) = choose|i: int, j: int|
            {
                &&& 0 <= i < j < registry.len()
                &&& #[trigger] crate::schnorr::keys_collide(registry[i], registry[j])
                &&& crate::schnorr::no_collision_before(registry, i, j)
                &&& e == GoldenError::PkiKeyCollision { a: registry[i].id, b: registry[j].id }
            };
        assert(e == GoldenError::PkiKeyCollision { a: registry[i].id, b: registry[j].id });
    }
}


/// A registration proof with the nonce `k` commits to `k`, and its response is
/// `k + c·sk` for the challenge that is drawn.
pub proof fn law_registration_proof_is_of_its_nonce(
    pok: SchnorrPoK,
    id: u32,
    sk: int,
    pk: GinPoint,
    k: int,
)
    requires
        pok_is(pok, id, sk, pk, k),
    ensures
        pok.commitment@ == gin_pow(k),
        pok.response@ == (k + (le_value(
            transcript_challenge(
                registration_events(id, pk, pok.commitment@),
                "c".spec_bytes(),
                64,
            ),
        ) % fs_order()) * sk) % fs_order(),
{
    law_registration_challenge(id, pk, pok.commitment@);
}

} // verus!
