# ml-kem

The ML-KEM key encapsulation mechanism (ML-KEM-512, -768 and -1024) written
in Verus, with its behaviour stated in contracts and proved.

- `src/kem.rs`: the key types (`DecapsulationKey`, `DecapsulationSeed`,
  `DecapsulationKeyInner`, `EncapsulationKey`, `Kem`), key generation from a
  seed, encapsulation, decapsulation with implicit rejection, the byte
  encodings of keys, and the laws that tie them together. The choice between
  the derived and the rejection key compares and selects with byte masks
  (`ct_eq_bytes`, `ct_select`) rather than branches; that this takes constant
  time is a property of that code, not one that the proofs state.
- `src/pke.rs`: the underlying public-key encryption K-PKE.
- `src/poly.rs`, `src/encode.rs`, `src/sample.rs`: arithmetic modulo
  `q = 3329`, the number-theoretic transform and its inverse, compression,
  byte encoding and sampling, each with a specification of its result.
- `src/crypto.rs`: SHA3-256, SHA3-512, SHAKE128 and SHAKE256 from the `sha3`
  crate, and randomness from a `rand_core` generator, behind trusted wrappers.
- `src/params.rs`: the three parameter sets.
- `app/lib.rs`: the keys behind the `kem` crate's `Encapsulate` and
  `Decapsulate` traits and behind `zeroize`, wiped on drop.
