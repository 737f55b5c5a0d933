[package]
name = "jolt_lookups"
version = "0.1.0"
edition = "2021"
publish = false

[dependencies]
ark-ff = "0.4"
ark-curve25519 = "0.4"

[dev-dependencies]
ark-std = "0.4"
