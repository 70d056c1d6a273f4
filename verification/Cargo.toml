[package]
name = "korrekt_ucp"
version = "0.1.0"
edition = "2021"
publish = false

[dependencies]
num-bigint = "0.4"
num = "0.4"
halo2_proofs = "0.3"
group = "0.13"
anyhow = "1"
