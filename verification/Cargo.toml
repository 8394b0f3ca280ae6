[package]
name = "relay_primitives"
version = "0.1.0"
edition = "2021"
publish = false

[dependencies]
blake2 = "0.10"
schnorrkel = "0.11"

[dev-dependencies]
parity-scale-codec = "3"
