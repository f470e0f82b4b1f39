[package]
name = "golden-nidkg"
version = "0.1.0"
edition = "2021"
publish = false

[dependencies]
ark-bls12-381 = "0.5"
ark-ec = "0.5"
ark-ed-on-bls12-381 = "0.5"
ark-ff = "0.5"
ark-serialize = "0.5"
ark-std = "0.5"
merlin = "3"
rand = "0.8"
rayon = "1"
sha2 = "0.10"
thiserror = "1"
zeroize = "1"
