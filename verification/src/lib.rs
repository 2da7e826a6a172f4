//! ML-KEM key encapsulation, with verified contracts.
//!
//! `kem` holds the key types and the KEM algorithms, `pke` the underlying
//! public-key encryption K-PKE, `poly`, `encode` and `sample` the polynomial
//! arithmetic, encodings and sampling, `crypto` the SHA-3 based primitives
//! and `params` the three parameter sets.

pub mod crypto;
pub mod encode;
pub mod kem;
pub mod params;
pub mod pke;
pub mod poly;
pub mod sample;

pub use kem::{DecapsulationKey, EncapsulationKey, Kem, SharedKey};
pub use params::{KemParams, MlKem1024Params, MlKem512Params, MlKem768Params, ParamSet};
