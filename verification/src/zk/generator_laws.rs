//! The hashed generators: each is the hash of a label and an index of its own.
use crate::curves::{gout_hash, gout_is_pow};
use crate::zk::generators::{known_dlog_input, BpGens, PedersenGens};
use vstd::bytes::{lemma_auto_spec_u64_to_from_le_bytes, spec_u64_to_le_bytes};
use vstd::prelude::*;
use vstd::string::{is_ascii_spec_bytes, StringSliceAdditionalSpecFns};

verus! {

/// The generators are hashes of a label and the eight bytes of their whole index, under one
/// domain, and `B` is `g_out`.
pub proof fn law_generators_are_hashes(gens: BpGens, i: int)
    requires
        gens.labelled(),
        0 <= i < gens.gens_capacity <= u64::MAX,
    ensures
        gens.g_vec@.len() == gens.gens_capacity,
        gens.h_vec@.len() == gens.gens_capacity,
        gout_is_pow(gens.b@, 1),
        gens.b_blinding@ == gout_hash(
            "golden-nidkg/bp-gens/v1".spec_bytes(),
            "B_blinding".spec_bytes() + spec_u64_to_le_bytes(0),
        ),
        gens.g_vec@[i]@ == gout_hash(
            "golden-nidkg/bp-gens/v1".spec_bytes(),
            "G".spec_bytes() + spec_u64_to_le_bytes(i as u64),
        ),
        gens.h_vec@[i]@ == gout_hash(
            "golden-nidkg/bp-gens/v1".spec_bytes(),
            "H".spec_bytes() + spec_u64_to_le_bytes(i as u64),
        ),
{
}

/// The Pedersen generators are those that Bulletproofs use.
pub proof fn law_pedersen_generators_are_hashes(gens: PedersenGens)
    requires
        gens.labelled(),
    ensures
        gout_is_pow(gens.b@, 1),
        gens.b_blinding@ == gout_hash(
            "golden-nidkg/bp-gens/v1".spec_bytes(),
            "B_blinding".spec_bytes() + spec_u64_to_le_bytes(0),
        ),
{
}

/// What a generator is the hash of determines its label and its index.
pub proof fn law_generator_inputs_differ(label1: Seq<u8>, i1: u64, label2: Seq<u8>, i2: u64)
    requires
        label1 + spec_u64_to_le_bytes(i1) == label2 + spec_u64_to_le_bytes(i2),
    ensures
        label1 == label2,
        i1 == i2,
{
    lemma_auto_spec_u64_to_from_le_bytes();
    let (b1, b2) = (spec_u64_to_le_bytes(i1), spec_u64_to_le_bytes(i2));
    let (s, t) = (label1 + b1, label2 + b2);
    assert(b1.len() == 8 && b2.len() == 8);
    assert(s.len() == label1.len() + 8 && t.len() == label2.len() + 8);
    assert(label1 =~= label2) by {
        assert forall|k: int| 0 <= k < label1.len() implies label1[k] == label2[k] by {
            assert(s[k] == t[k]);
        }
    }
    assert(b1 =~= b2) by {
        assert forall|k: int| 0 <= k < b1.len() implies b1[k] == b2[k] by {
            assert(s[label1.len() + k] == t[label1.len() + k]);
        }
    }
}

/// The labels of the generators differ.
pub proof fn law_generator_labels_differ()
    ensures
        "G".spec_bytes() != "H".spec_bytes(),
        "G".spec_bytes() != "B_blinding".spec_bytes(),
        "H".spec_bytes() != "B_blinding".spec_bytes(),
{
    reveal_strlit("G");
    reveal_strlit("H");
    reveal_strlit("B_blinding");
    is_ascii_spec_bytes("G");
    is_ascii_spec_bytes("H");
    is_ascii_spec_bytes("B_blinding");
    assert("G".spec_bytes()[0] != "H".spec_bytes()[0]);
    assert("B_blinding".spec_bytes().len() == 10);
}

/// What a generator with a known logarithm is the hash of determines its label and its index.
pub proof fn law_known_dlog_inputs_differ(label1: Seq<u8>, i1: u64, label2: Seq<u8>, i2: u64)
    requires
        known_dlog_input(label1, i1) == known_dlog_input(label2, i2),
    ensures
        label1 == label2,
        i1 == i2,
{
    let tag = "golden-nidkg/bp-gens-fast/v1".spec_bytes();
    law_generator_inputs_differ(tag + label1, i1, tag + label2, i2);
    let (s, t) = (tag + label1, tag + label2);
    assert(label1 =~= label2) by {
        assert(s.len() == t.len());
        assert forall|k: int| 0 <= k < label1.len() implies label1[k] == label2[k] by {
            assert(s[tag.len() + k] == t[tag.len() + k]);
        }
    }
}

} // verus!
