//! What hashes and challenges are bound to: the bytes that are hashed, and the transcripts
//! that challenges are drawn from, determine everything that went into them.
use crate::curves::{
    ed_a, ed_d, gin_bytes, gin_double, gin_identity, gin_in_group, gin_log, lemma_gin_eq, GinAffine,
    GinPoint,
};
use crate::dkg::{keys_log, session_log};
use crate::field::{fp_order, fp_sqrt, fs_order, le_bytes, le_value, lemma_fs_order};
use crate::hash_to_curve::{
    attempt, field_hash, field_input, first_point, gin_hash, h1_point, h2_point, lex_at_most,
    point_input, point_with_y, session_input, sha512, sized,
};
use crate::maps::{lemma_lists_unique, lemma_ordered_lists, lists, ordered};
use crate::schnorr::{pok_challenge, pok_log, SchnorrPoK};
use crate::transcript::{transcript_challenge, TranscriptEvent};
use vstd::bytes::{
    lemma_auto_spec_u32_to_from_le_bytes, lemma_auto_spec_u64_to_from_le_bytes,
    spec_u32_to_le_bytes, spec_u64_to_le_bytes,
};
use crate::algebra::{
    cong, is_prime, lemma_cong_add, lemma_cong_small, lemma_cong_sub, lemma_mod_reduced,
};
use crate::lagrange::inv;
use vstd::prelude::*;
use vstd::string::{is_ascii_spec_bytes, StringSliceAdditionalSpecFns};

verus! {

// ─── bytes ──────────────────────────────────────────────────────────────────

/// Equal concatenations whose first parts have one length have equal parts.
proof fn lemma_parts(a1: Seq<u8>, b1: Seq<u8>, a2: Seq<u8>, b2: Seq<u8>)
    requires
        a1 + b1 == a2 + b2,
        a1.len() == a2.len(),
    ensures
        a1 == a2,
        b1 == b2,
{
    let (s, t) = (a1 + b1, a2 + b2);
    assert(a1 =~= a2) by {
        assert forall|i: int| 0 <= i < a1.len() implies a1[i] == a2[i] by {
            assert(s[i] == t[i]);
        }
    }
    assert(b1 =~= b2) by {
        assert(s.len() == t.len());
        assert forall|i: int| 0 <= i < b1.len() implies b1[i] == b2[i] by {
            assert(s[a1.len() + i] == t[a1.len() + i]);
        }
    }
}

/// Eight bytes hold an integer.
proof fn lemma_u64_bytes(x: u64, y: u64)
    ensures
        spec_u64_to_le_bytes(x).len() == 8,
        spec_u64_to_le_bytes(x) == spec_u64_to_le_bytes(y) ==> x == y,
{
    lemma_auto_spec_u64_to_from_le_bytes();
}

/// Bytes with their length before them can be told from what follows.
pub proof fn law_sized_bytes_are_bound(a1: Seq<u8>, b1: Seq<u8>, a2: Seq<u8>, b2: Seq<u8>)
    requires
        a1.len() <= u64::MAX,
        a2.len() <= u64::MAX,
        sized(a1) + b1 == sized(a2) + b2,
    ensures
        a1 == a2,
        b1 == b2,
{
    let (x, y) = (a1.len() as u64, a2.len() as u64);
    let (l1, l2) = (spec_u64_to_le_bytes(x), spec_u64_to_le_bytes(y));
    lemma_u64_bytes(x, y);
    lemma_u64_bytes(y, x);
    assert(sized(a1) + b1 =~= l1 + (a1 + b1));
    assert(sized(a2) + b2 =~= l2 + (a2 + b2));
    lemma_parts(l1, a1 + b1, l2, a2 + b2);
    lemma_parts(a1, b1, a2, b2);
}

/// What `H₁` and `H₂` hash determines the session and the message.
pub proof fn law_session_and_message_are_bound(
    sid1: Seq<u8>,
    msg1: Seq<u8>,
    sid2: Seq<u8>,
    msg2: Seq<u8>,
)
    requires
        sid1.len() <= u64::MAX,
        sid2.len() <= u64::MAX,
        session_input(sid1, msg1) == session_input(sid2, msg2),
    ensures
        sid1 == sid2,
        msg1 == msg2,
{
    law_sized_bytes_are_bound(sid1, msg1, sid2, msg2);
}

/// What an attempt at a point hashes determines the domain, the message and the counter.
pub proof fn law_point_input_is_bound(
    domain1: Seq<u8>,
    msg1: Seq<u8>,
    ctr1: u32,
    domain2: Seq<u8>,
    msg2: Seq<u8>,
    ctr2: u32,
)
    requires
        domain1.len() <= u64::MAX,
        domain2.len() <= u64::MAX,
        msg1.len() <= u64::MAX,
        msg2.len() <= u64::MAX,
        point_input(domain1, msg1, ctr1) == point_input(domain2, msg2, ctr2),
    ensures
        domain1 == domain2,
        msg1 == msg2,
        ctr1 == ctr2,
{
    let tag = "golden-nidkg/h2c/v1".spec_bytes();
    let (c1, c2) = (spec_u32_to_le_bytes(ctr1), spec_u32_to_le_bytes(ctr2));
    lemma_auto_spec_u32_to_from_le_bytes();
    let (r1, r2) = (sized(msg1) + c1, sized(msg2) + c2);
    assert(point_input(domain1, msg1, ctr1) =~= tag + (sized(domain1) + r1));
    assert(point_input(domain2, msg2, ctr2) =~= tag + (sized(domain2) + r2));
    lemma_parts(tag, sized(domain1) + r1, tag, sized(domain2) + r2);
    law_sized_bytes_are_bound(domain1, r1, domain2, r2);
    law_sized_bytes_are_bound(msg1, c1, msg2, c2);
}

/// What a field element is the hash of determines the domain and the message.
pub proof fn law_field_input_is_bound(
    domain1: Seq<u8>,
    msg1: Seq<u8>,
    domain2: Seq<u8>,
    msg2: Seq<u8>,
)
    requires
        domain1.len() <= u64::MAX,
        domain2.len() <= u64::MAX,
        msg1.len() <= u64::MAX,
        msg2.len() <= u64::MAX,
        field_input(domain1, msg1) == field_input(domain2, msg2),
    ensures
        domain1 == domain2,
        msg1 == msg2,
{
    let tag = "golden-nidkg/h2f/v1".spec_bytes();
    assert(field_input(domain1, msg1) =~= tag + (sized(domain1) + sized(msg1)));
    assert(field_input(domain2, msg2) =~= tag + (sized(domain2) + sized(msg2)));
    lemma_parts(tag, sized(domain1) + sized(msg1), tag, sized(domain2) + sized(msg2));
    law_sized_bytes_are_bound(domain1, sized(msg1), domain2, sized(msg2));
    let e = Seq::<u8>::empty();
    assert(sized(msg1) + e =~= sized(msg1));
    assert(sized(msg2) + e =~= sized(msg2));
    law_sized_bytes_are_bound(msg1, e, msg2, e);
}

// ─── points and field elements ──────────────────────────────────────────────

/// The y-coordinate that an attempt at a point starts from: a digest of the tag, of the domain
/// and of the message, each after its length, and of the counter.
pub open spec fn hashed_y(domain: Seq<u8>, msg: Seq<u8>, ctr: u32) -> int {
    le_value(
        sha512(
            "golden-nidkg/h2c/v1".spec_bytes() + (spec_u64_to_le_bytes(domain.len() as u64)
                + domain) + (spec_u64_to_le_bytes(msg.len() as u64) + msg) + spec_u32_to_le_bytes(
                ctr,
            ),
        ),
    ) % fp_order()
}

/// The counter `ctr` is the first one whose y-coordinate is that of a point which does not
/// vanish when its cofactor is cleared, and `q` is the cleared point.
pub open spec fn first_hashed_point(domain: Seq<u8>, msg: Seq<u8>, ctr: u32, q: GinPoint) -> bool {
    &&& point_with_y(hashed_y(domain, msg, ctr)) matches Some(p) && q == gin_double(
        gin_double(gin_double(p)),
    )
    &&& q != gin_identity()
    &&& forall|c: u32| #![trigger hashed_y(domain, msg, c)]
        c < ctr ==> (point_with_y(hashed_y(domain, msg, c)) matches Some(p) ==> gin_double(
            gin_double(gin_double(p)),
        ) == gin_identity())
}

proof fn lemma_first_point(domain: Seq<u8>, msg: Seq<u8>, from: u32) -> (ctr: u32)
    ensures
        first_point(domain, msg, from) matches Some(q) ==> {
            &&& from <= ctr
            &&& attempt(domain, msg, ctr) == Some(q)
            &&& forall|c: u32| from <= c < ctr ==> #[trigger] attempt(domain, msg, c) is None
        },
        first_point(domain, msg, from) is None ==> forall|c: u32|
            from <= c ==> #[trigger] attempt(domain, msg, c) is None,
    decreases u32::MAX - from,
{
    if attempt(domain, msg, from) is Some || from == u32::MAX {
        from
    } else {
        lemma_first_point(domain, msg, (from + 1) as u32)
    }
}

/// A domain and a message hash to the first point, counting from zero, whose y-coordinate is
/// a digest of the whole domain, the whole message and the counter.
pub proof fn law_point_is_hashed_from_all(domain: Seq<u8>, msg: Seq<u8>)
    ensures
        gin_hash(domain, msg) matches Some(q) ==> exists|ctr: u32| #[trigger]
            first_hashed_point(domain, msg, ctr, q),
        gin_hash(domain, msg) is None ==> forall|ctr: u32|
            #![trigger hashed_y(domain, msg, ctr)]
            point_with_y(hashed_y(domain, msg, ctr)) matches Some(p) ==> gin_double(
                gin_double(gin_double(p)),
            ) == gin_identity(),
{
    if gin_hash(domain, msg) is None {
        let ctr = lemma_first_point(domain, msg, 0);
        assert forall|c: u32| #![trigger hashed_y(domain, msg, c)] (point_with_y(
            hashed_y(domain, msg, c),
        ) matches Some(p) ==> gin_double(gin_double(gin_double(p))) == gin_identity()) by {
            assert(attempt(domain, msg, c) is None);
        }
    }
    if gin_hash(domain, msg) is Some {
        let q = gin_hash(domain, msg)->Some_0;
        let ctr = lemma_first_point(domain, msg, 0);
        assert forall|c: u32| #![trigger hashed_y(domain, msg, c)] c <= ctr implies le_value(
            sha512(point_input(domain, msg, c)),
        ) % fp_order() == hashed_y(domain, msg, c) by {}
        assert(hashed_y(domain, msg, ctr) == hashed_y(domain, msg, ctr));
        assert forall|c: u32| #![trigger hashed_y(domain, msg, c)] c < ctr implies (point_with_y(
            hashed_y(domain, msg, c),
        ) matches Some(p) ==> gin_double(gin_double(gin_double(p))) == gin_identity()) by {
            assert(attempt(domain, msg, c) is None);
        }
        assert(first_hashed_point(domain, msg, ctr, q));
    }
}

/// `H₁` and `H₂` hash the session, after its length, and the whole message, each under a
/// domain of its own.
pub proof fn law_pad_points_hash_session_and_message(sid: Seq<u8>, msg: Seq<u8>)
    ensures
        ({
            let input = spec_u64_to_le_bytes(sid.len() as u64) + sid + msg;
            &&& h1_point(sid, msg) matches Some(q) ==> exists|ctr: u32| #[trigger]
                first_hashed_point("H1".spec_bytes(), input, ctr, q)
            &&& h2_point(sid, msg) matches Some(q) ==> exists|ctr: u32| #[trigger]
                first_hashed_point("H2".spec_bytes(), input, ctr, q)
        }),
        "H1".spec_bytes() != "H2".spec_bytes(),
{
    let input = spec_u64_to_le_bytes(sid.len() as u64) + sid + msg;
    law_point_is_hashed_from_all("H1".spec_bytes(), input);
    law_point_is_hashed_from_all("H2".spec_bytes(), input);
    reveal_strlit("H1");
    reveal_strlit("H2");
    is_ascii_spec_bytes("H1");
    is_ascii_spec_bytes("H2");
    assert("H1".spec_bytes()[1] != "H2".spec_bytes()[1]);
}

/// A field element is a digest of the whole domain and the whole message, each after its
/// length, modulo `p`.
pub proof fn law_field_element_is_hashed_from_all(domain: Seq<u8>, msg: Seq<u8>)
    ensures
        field_hash(domain, msg) == le_value(
            sha512(
                "golden-nidkg/h2f/v1".spec_bytes() + (spec_u64_to_le_bytes(domain.len() as u64)
                    + domain) + (spec_u64_to_le_bytes(msg.len() as u64) + msg),
            ),
        ) % fp_order(),
{
}

// ─── registration ───────────────────────────────────────────────────────────

/// The transcript of a registration proof, message by message.
pub open spec fn registration_events(id: u32, pk: GinPoint, commitment: GinPoint) -> Seq<
    TranscriptEvent,
> {
    seq![
        TranscriptEvent::Append {
            label: "dom-sep".spec_bytes(),
            message: "golden-nidkg/schnorr-pok/v1".spec_bytes(),
        },
        TranscriptEvent::Append {
            label: "id".spec_bytes(),
            message: spec_u64_to_le_bytes(id as u64),
        },
        TranscriptEvent::Append { label: "pk".spec_bytes(), message: gin_bytes(pk) },
        TranscriptEvent::Append { label: "R".spec_bytes(), message: gin_bytes(commitment) },
    ]
}

/// The challenge of a registration proof is drawn from a transcript of the identity, the key
/// and the commitment.
pub proof fn law_registration_challenge(id: u32, pk: GinPoint, commitment: GinPoint)
    ensures
        pok_challenge(id, pk, commitment) == le_value(
            transcript_challenge(registration_events(id, pk, commitment), "c".spec_bytes(), 64),
        ) % fs_order(),
{
}

/// A registration proof is bound to one identity, one key and one commitment: where two have
/// the same transcript, these are the same.
pub proof fn law_registration_is_bound(
    id1: u32,
    pk1: GinPoint,
    r1: GinPoint,
    id2: u32,
    pk2: GinPoint,
    r2: GinPoint,
)
    requires
        registration_events(id1, pk1, r1) == registration_events(id2, pk2, r2),
    ensures
        id1 == id2,
        gin_bytes(pk1) == gin_bytes(pk2),
        gin_bytes(r1) == gin_bytes(r2),
{
    let (s, t) = (registration_events(id1, pk1, r1), registration_events(id2, pk2, r2));
    lemma_u64_bytes(id1 as u64, id2 as u64);
    assert(s[1] == t[1]);
    assert(s[2] == t[2]);
    assert(s[3] == t[3]);
}

/// The same of the transcript that [`crate::schnorr::SchnorrPoK`] is verified with.
pub proof fn law_registration_transcript_is_bound(
    id1: u32,
    pk1: GinPoint,
    r1: GinPoint,
    id2: u32,
    pk2: GinPoint,
    r2: GinPoint,
)
    requires
        pok_log(id1, pk1, r1) == pok_log(id2, pk2, r2),
    ensures
        id1 == id2,
        gin_bytes(pk1) == gin_bytes(pk2),
        gin_bytes(r1) == gin_bytes(r2),
{
    let (s, t) = (pok_log(id1, pk1, r1), pok_log(id2, pk2, r2));
    assert(s =~= registration_events(id1, pk1, r1));
    assert(t =~= registration_events(id2, pk2, r2));
    law_registration_is_bound(id1, pk1, r1, id2, pk2, r2);
}

/// A registration proof is good for one identity only, unless challenges collide: if its
/// equation holds for a key under two identities, the two challenges are equal.
pub proof fn law_registration_is_for_one_identity(
    pok: SchnorrPoK,
    id1: u32,
    id2: u32,
    pk: GinPoint,
)
    requires
        is_prime(fs_order()),
        gin_in_group(pk),
        pk != gin_identity(),
        cong(
            pok.response@,
            gin_log(pk) * pok_challenge(id1, pk, pok.commitment@) + gin_log(pok.commitment@),
            fs_order(),
        ),
        cong(
            pok.response@,
            gin_log(pk) * pok_challenge(id2, pk, pok.commitment@) + gin_log(pok.commitment@),
            fs_order(),
        ),
    ensures
        pok_challenge(id1, pk, pok.commitment@) == pok_challenge(id2, pk, pok.commitment@),
{
    let s = fs_order();
    lemma_fs_order();
    let (l, r) = (gin_log(pk), gin_log(pok.commitment@));
    let (c1, c2) = (
        pok_challenge(id1, pk, pok.commitment@),
        pok_challenge(id2, pk, pok.commitment@),
    );
    lemma_gin_eq(pk, pk);
    lemma_mod_reduced(l, s);
    lemma_cong_sub(l * c1 + r, l * c2 + r, l * c2 + r, l * c2 + r, s);
    lemma_mod_reduced(0, s);
    assert(l * c1 + r - (l * c2 + r) == l * (c1 - c2)) by (nonlinear_arith);
    assert((l * (c1 - c2)) % s == 0);
    lemma_cong_add(c1 - c2, 0, c2, c2, s);
    lemma_cong_small(c1, c2, s);
}

// ─── session identifiers ────────────────────────────────────────────────────

proof fn lemma_keys_log(log: Seq<TranscriptEvent>, ids: Seq<u32>, pki: Map<u32, GinAffine>)
    ensures
        ({
            let l = keys_log(log, ids, pki);
            &&& l.len() == log.len() + 2 * ids.len()
            &&& l.take(log.len() as int) == log
            &&& forall|i: int|
                #![trigger ids[i]]
                0 <= i < ids.len() ==> {
                    &&& l[log.len() + 2 * i] == (TranscriptEvent::Append {
                        label: "id".spec_bytes(),
                        message: spec_u64_to_le_bytes(ids[i] as u64),
                    })
                    &&& l[log.len() + 2 * i + 1] == (TranscriptEvent::Append {
                        label: "pk".spec_bytes(),
                        message: gin_bytes(pki[ids[i]]@),
                    })
                }
        }),
    decreases ids.len(),
{
    let l = keys_log(log, ids, pki);
    if ids.len() == 0 {
        assert(l.take(log.len() as int) =~= log);
    } else {
        let rest = ids.drop_last();
        let l0 = keys_log(log, rest, pki);
        lemma_keys_log(log, rest, pki);
        assert(l.take(log.len() as int) =~= l0.take(log.len() as int));
        assert forall|i: int| #![trigger ids[i]] 0 <= i < ids.len() implies {
            &&& l[log.len() + 2 * i] == (TranscriptEvent::Append {
                label: "id".spec_bytes(),
                message: spec_u64_to_le_bytes(ids[i] as u64),
            })
            &&& l[log.len() + 2 * i + 1] == (TranscriptEvent::Append {
                label: "pk".spec_bytes(),
                message: gin_bytes(pki[ids[i]]@),
            })
        } by {
            if i < rest.len() {
                assert(rest[i] == ids[i]);
                assert(l[log.len() + 2 * i] == l0[log.len() + 2 * i]);
                assert(l[log.len() + 2 * i + 1] == l0[log.len() + 2 * i + 1]);
            }
        }
    }
}

/// The transcript of a session identifier determines the label, the parameters, who is
/// registered, and every registered key.
pub proof fn law_session_identifier_is_bound(
    label1: Seq<u8>,
    n1: u32,
    t1: u32,
    pki1: Map<u32, GinAffine>,
    label2: Seq<u8>,
    n2: u32,
    t2: u32,
    pki2: Map<u32, GinAffine>,
)
    requires
        pki1.dom().finite(),
        pki2.dom().finite(),
        session_log(label1, n1, t1, pki1) == session_log(label2, n2, t2, pki2),
    ensures
        label1 == label2,
        n1 == n2,
        t1 == t2,
        pki1.dom() == pki2.dom(),
        forall|k: u32|
            pki1.contains_key(k) ==> gin_bytes((#[trigger] pki1[k])@) == gin_bytes(pki2[k]@),
{
    let (ids1, ids2) = (ordered(pki1.dom()), ordered(pki2.dom()));
    lemma_ordered_lists(pki1.dom());
    lemma_ordered_lists(pki2.dom());
    let head = |label: Seq<u8>, n: u32, t: u32| -> Seq<TranscriptEvent>
        {
            seq![
                TranscriptEvent::Append {
                    label: "dom-sep".spec_bytes(),
                    message: "golden-nidkg/session-id/v1".spec_bytes(),
                },
                TranscriptEvent::Append { label: "label".spec_bytes(), message: label },
                TranscriptEvent::Append {
                    label: "n".spec_bytes(),
                    message: spec_u64_to_le_bytes(n as u64),
                },
                TranscriptEvent::Append {
                    label: "t".spec_bytes(),
                    message: spec_u64_to_le_bytes(t as u64),
                },
            ]
        };
    let (h1, h2) = (head(label1, n1, t1), head(label2, n2, t2));
    lemma_keys_log(h1, ids1, pki1);
    lemma_keys_log(h2, ids2, pki2);
    let l = session_log(label1, n1, t1, pki1);
    assert(l == keys_log(h1, ids1, pki1));
    assert(l == keys_log(h2, ids2, pki2));
    assert(h1 == h2);
    assert(h1[1] == h2[1] && h1[2] == h2[2] && h1[3] == h2[3]);
    lemma_u64_bytes(n1 as u64, n2 as u64);
    lemma_u64_bytes(t1 as u64, t2 as u64);
    assert(ids1.len() == ids2.len());
    assert(ids1 =~= ids2) by {
        assert forall|i: int| 0 <= i < ids1.len() implies ids1[i] == ids2[i] by {
            lemma_u64_bytes(ids1[i] as u64, ids2[i] as u64);
        }
    }
    assert(pki1.dom() =~= pki2.dom()) by {
        assert forall|k: u32| pki1.dom().contains(k) <==> pki2.dom().contains(k) by {
            assert(ids1.contains(k) <==> pki1.dom().contains(k));
            assert(ids2.contains(k) <==> pki2.dom().contains(k));
        }
    }
    assert forall|k: u32| pki1.contains_key(k) implies gin_bytes((#[trigger] pki1[k])@)
        == gin_bytes(pki2[k]@) by {
        assert(pki1.dom().contains(k));
        assert(ids1.contains(k));
        let i = choose|i: int| 0 <= i < ids1.len() && ids1[i] == k;
        assert(ids2[i] == k);
    }
}


// ─── roots ──────────────────────────────────────────────────────────────────

/// `a` and `b` agree before place `k`, and `a` is smaller there.
pub open spec fn first_less(a: Seq<u8>, b: Seq<u8>, k: int) -> bool {
    &&& 0 <= k < a.len()
    &&& forall|i: int| 0 <= i < k ==> #[trigger] a[i] == b[i]
    &&& a[k] < b[k]
}

/// The order of byte strings of one length is decided by the first place where they differ.
pub proof fn law_first_difference_decides(a: Seq<u8>, b: Seq<u8>)
    requires
        a.len() == b.len(),
    ensures
        lex_at_most(a, b) <==> a == b || exists|k: int| first_less(a, b, k),
    decreases a.len(),
{
    if a.len() == 0 {
        assert(a =~= b);
    } else {
        let (c, d) = (a.drop_first(), b.drop_first());
        law_first_difference_decides(c, d);
        if a[0] < b[0] {
            assert(first_less(a, b, 0));
        } else if a[0] == b[0] {
            if c == d {
                assert(a =~= seq![a[0]] + c);
                assert(b =~= seq![b[0]] + d);
            }
            if exists|k: int| first_less(c, d, k) {
                let k = choose|k: int| first_less(c, d, k);
                assert forall|i: int| 0 <= i < k + 1 implies #[trigger] a[i] == b[i] by {
                    if i > 0 {
                        assert(c[i - 1] == d[i - 1]);
                    }
                }
                assert(c[k] == a[k + 1] && d[k] == b[k + 1]);
                assert(first_less(a, b, k + 1));
            }
            if exists|k: int| first_less(a, b, k) {
                let k = choose|k: int| first_less(a, b, k);
                assert forall|i: int| 0 <= i < k - 1 implies #[trigger] c[i] == d[i] by {
                    assert(a[i + 1] == b[i + 1]);
                }
                assert(c[k - 1] == a[k] && d[k - 1] == b[k]);
                assert(first_less(c, d, k - 1));
            }
        } else {
            assert(a != b);
            assert forall|k: int| !first_less(a, b, k) by {
                if first_less(a, b, k) && k > 0 {
                    assert(a[0] == b[0]);
                }
            }
        }
    }
}

/// There is a point with a y-coordinate exactly where `(1 − y²) / (a − d·y²)` is defined and
/// has a root; its x-coordinate is, of the root and its negation, the one whose little-endian
/// bytes come first.
pub proof fn law_point_with_y(y: int)
    ensures
        ({
            let num = (1 - y * y) % fp_order();
            let den = (ed_a() - ed_d() * (y * y)) % fp_order();
            let root = fp_sqrt((num * inv(den)) % fp_order());
            &&& point_with_y(y) is Some <==> den != 0 && root is Some
            &&& point_with_y(y) matches Some(p) ==> {
                let r = root->Some_0;
                let n = (-r) % fp_order();
                let (a, b) = (le_bytes(r, 32), le_bytes(n, 32));
                &&& p.y == y
                &&& p.x == (if a == b || exists|k: int| first_less(a, b, k) {
                    r
                } else {
                    n
                })
            }
        }),
{
    let num = (1 - y * y) % fp_order();
    let den = (ed_a() - ed_d() * (y * y)) % fp_order();
    let root = fp_sqrt((num * inv(den)) % fp_order());
    if root is Some {
        let r = root->Some_0;
        law_first_difference_decides(le_bytes(r, 32), le_bytes((-r) % fp_order(), 32));
    }
}


/// The transcript of a session identifier, message by message: the label, the parameters, and
/// the identity and the key of every registered party, in ascending order.
pub proof fn law_session_identifier_transcript(
    label: Seq<u8>,
    n: u32,
    t: u32,
    pki: Map<u32, GinAffine>,
    ids: Seq<u32>,
)
    requires
        forall|i: int, j: int| 0 <= i < j < ids.len() ==> #[trigger] ids[i] < #[trigger] ids[j],
        forall|k: u32| #[trigger] pki.contains_key(k) <==> ids.contains(k),
    ensures
        session_log(label, n, t, pki) == seq![
            TranscriptEvent::Append {
                label: "dom-sep".spec_bytes(),
                message: "golden-nidkg/session-id/v1".spec_bytes(),
            },
            TranscriptEvent::Append { label: "label".spec_bytes(), message: label },
            TranscriptEvent::Append {
                label: "n".spec_bytes(),
                message: spec_u64_to_le_bytes(n as u64),
            },
            TranscriptEvent::Append {
                label: "t".spec_bytes(),
                message: spec_u64_to_le_bytes(t as u64),
            },
        ] + Seq::new(
            2 * ids.len(),
            |i: int|
                if i % 2 == 0 {
                    TranscriptEvent::Append {
                        label: "id".spec_bytes(),
                        message: spec_u64_to_le_bytes(ids[i / 2] as u64),
                    }
                } else {
                    TranscriptEvent::Append {
                        label: "pk".spec_bytes(),
                        message: gin_bytes(pki[ids[i / 2]]@),
                    }
                },
        ),
{
    assert forall|k: u32| #[trigger] pki.dom().contains(k) <==> ids.contains(k) by {
        assert(pki.contains_key(k) <==> ids.contains(k));
    }
    assert(lists(ids, pki.dom()));
    lemma_lists_unique(ids, ordered(pki.dom()), pki.dom());
    let head = seq![
        TranscriptEvent::Append {
            label: "dom-sep".spec_bytes(),
            message: "golden-nidkg/session-id/v1".spec_bytes(),
        },
        TranscriptEvent::Append { label: "label".spec_bytes(), message: label },
        TranscriptEvent::Append {
            label: "n".spec_bytes(),
            message: spec_u64_to_le_bytes(n as u64),
        },
        TranscriptEvent::Append {
            label: "t".spec_bytes(),
            message: spec_u64_to_le_bytes(t as u64),
        },
    ];
    let tail = Seq::new(
        2 * ids.len(),
        |i: int|
            if i % 2 == 0 {
                TranscriptEvent::Append {
                    label: "id".spec_bytes(),
                    message: spec_u64_to_le_bytes(ids[i / 2] as u64),
                }
            } else {
                TranscriptEvent::Append {
                    label: "pk".spec_bytes(),
                    message: gin_bytes(pki[ids[i / 2]]@),
                }
            },
    );
    lemma_keys_log(head, ids, pki);
    let l = session_log(label, n, t, pki);
    assert(l == keys_log(head, ids, pki));
    assert forall|i: int| 0 <= i < l.len() implies l[i] == (head + tail)[i] by {
        if i < 4 {
            assert(l.take(4)[i] == l[i]);
        } else {
            let k = i - 4;
            let id = ids[k / 2];
            assert(k == 2 * (k / 2) || k == 2 * (k / 2) + 1);
        }
    }
    assert(l =~= head + tail);
}

} // verus!
