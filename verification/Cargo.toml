[package]
name = "pade"
version = "0.1.0"
edition = "2021"
publish = false

[dependencies]
alloy = { version = "1", default-features = false, features = ["std", "sol-types", "signer-local"] }
alloy-sol-types = { version = "1", default-features = false, features = ["std"] }
