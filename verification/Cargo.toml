[package]
name = "ml-kem"
version = "0.1.0"
edition = "2021"
publish = false

[dependencies]
sha3 = "=0.10.9"
rand_core = "=0.6.4"
zeroize = "=1.9.1"
kem = "=0.3.0-pre.0"

[dev-dependencies]
rand = "=0.8.8"
