[package]
name = "utxo_ledger"
version = "0.1.0"
edition = "2021"
publish = false

[dependencies]
blake2b_simd = "*"
schnorrkel = "*"
serde = { version = "*", features = ["derive"] }
