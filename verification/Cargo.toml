[package]
name = "pauli_tracker"
version = "0.1.0"
edition = "2021"
publish = false

[dependencies]
bit-vec = "=0.6.3"
bitvec_simd = "=0.20.5"
hashbrown = "0.14"
itertools = "=0.10.5"
rand = "=0.8.8"
serde = "=1.0.229"
serde_json = "=1.0.154"
bincode = "=1.3.3"
