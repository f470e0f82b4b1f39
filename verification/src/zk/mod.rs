//! Zero-knowledge proof that a pad commitment belongs to the pad of two keys,
//! by Bulletproofs over a rank-1 constraint system.
pub mod batch_laws;
pub mod bp_algebra;
pub mod bp_laws;
pub mod bp_protocol;
pub mod bp_r1cs;
pub mod challenge_laws;
pub mod circuit_laws;
pub mod evrf_circuit;
pub mod evrf_proof;
pub mod gadgets;
pub mod generator_laws;
pub mod generators;
pub mod honest;
pub mod ipa;
pub mod ipa_laws;
pub mod pad_proof_laws;
pub mod proof_laws;
pub mod r1cs;
pub mod shape;
pub mod sound;
pub mod usable;

pub use evrf_proof::{prove_evrf, verify_evrf, EvrfProof, ZkParams};
