[package]
name = "ntt"
version = "0.1.0"
edition = "2021"
publish = false

[dependencies]
ff = "0.13"
bls12_381 = "0.8"
