# golden-nidkg

Golden is a one-round distributed key generation. `n` parties, each with a registered
Diffie-Hellman key, end up with Shamir shares of a field element `sk` with threshold `t`
and with the public key `PK = g^sk`. Each pairwise share is encrypted with a one-time pad
that comes from a Diffie-Hellman secret by a two-party exponent VRF, and a Bulletproofs
proof binds the pad to its commitment, so that anyone can verify every dealing.

The library is written in Verus: what each function returns is stated in its contract and
proved. It is a reference, not hardened against side channels.

## Layout

| Path | Contents |
|------|----------|
| `src/field.rs`, `src/curves.rs` | the fields `F_p` and `F_s`; Jubjub (`G_in`) and BLS12-381 `G1` (`G_out`) |
| `src/algebra.rs`, `src/lagrange.rs` | congruences, sums, polynomials, interpolation |
| `src/curve_laws.rs` | the x-coordinate determines a point of the subgroup |
| `src/shamir.rs`, `src/shamir_laws.rs` | sharing and recovering; what fewer shares leave open |
| `src/vss.rs` | Feldman commitments |
| `src/transcript.rs`, `src/schnorr.rs` | Fiat-Shamir transcripts; registration of keys |
| `src/hash_to_curve.rs`, `src/evrf.rs` | hashing to Jubjub; pads |
| `src/zk/r1cs.rs`, `ipa.rs`, `generators.rs`, `bp_*.rs` | Bulletproofs for constraint systems |
| `src/zk/gadgets.rs`, `honest.rs`, `sound.rs`, `shape.rs` | circuits for curve arithmetic: honest values satisfy them, and only the right values do |
| `src/zk/evrf_circuit.rs`, `evrf_proof.rs` | the pad circuit and its proofs |
| `src/zk/usable.rs` | whether the points of the circuit have coordinates |
| `src/dealer.rs`, `src/dkg.rs` | dealings, their verification, completion |
| `src/dkg_laws.rs`, `src/dkg_batch_laws.rs` | what holds of a session, and of the verdict on a batch |
| `app/` | errors with the standard traits, and a session that is run and printed |

## What is taken on trust

Field and curve arithmetic, hashing to `G1`, serialisation, SHA-512, Merlin transcripts,
parallel maps and the random generator come from outside crates. Each stands behind an item whose
comment says what is claimed of it. Points are spoken of by their coordinates and, in the
prime-order groups, by their exponents.

That a proof of a constraint system cannot be made without values that satisfy it rests on
the hardness of discrete logarithms and is not stated. What is proved is that the proof of
an honest prover passes, and that whatever satisfies the pad circuit commits to the right
pads.
