[package]
name = "plonkish_backend"
version = "0.1.0"
edition = "2021"
publish = false

[dependencies]
halo2_proofs = "0.3"
halo2curves = { version = "*", default-features = false }
num-bigint = "0.4"
rand = "0.8"
sha3 = "0.10"
