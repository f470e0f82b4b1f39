//! **Golden**: lightweight non-interactive distributed key generation.
//!
//! `n` parties, each with a registered Diffie-Hellman key, agree in one broadcast
//! round on a public key `PK = g^sk` and on Shamir shares of `sk` with threshold
//! `t`. Every pairwise share is encrypted with a one-time pad that comes from a
//! Diffie-Hellman secret by a two-party exponent VRF, and a Bulletproofs proof
//! binds the pad to its commitment, so that anyone can verify every dealing.
pub mod algebra;
pub mod binding_laws;
pub mod curve_laws;
pub mod curves;
pub mod dealer;
pub mod dealing_laws;
pub mod dkg;
pub mod dkg_batch_laws;
pub mod dkg_laws;
pub mod errors;
pub mod evrf;
pub mod field;
pub mod hash_to_curve;
pub mod lagrange;
pub mod maps;
pub mod pad_laws;
pub mod poly_laws;
pub mod registration_laws;
pub mod schnorr;
pub mod session_laws;
pub mod shamir;
pub mod shamir_laws;
pub mod transcript;
pub mod vss;
pub mod zk;

pub use curves::{Fp, Fs, GinAffine, GoutAffine};
pub use dkg::{
    complete, create_dealing, refresh_dealing, verify_dealing, Dealing, DealingPrivate, DkgConfig,
    DkgOutput,
};
pub use errors::{GoldenError, GoldenResult};
pub use evrf::{Beta, SessionId};
pub use schnorr::{verify_pki, RegisteredKey, SchnorrPoK};
