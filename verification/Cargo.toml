[package]
name = "pvss"
version = "0.1.0"
edition = "2021"
publish = false

[dependencies]
curve25519-dalek = "4"
blake3 = "1"
rand = "0.9"
zeroize = "1"
