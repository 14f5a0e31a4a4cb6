[package]
name = "vsdb_core"
version = "0.1.0"
edition = "2021"
publish = false

[dependencies]
keccak-hasher = "0.15"
serde = { version = "1", features = ["derive"] }
triehash = "0.8"
