[package]
name = "agave-abiv2-memory-contexts"
version = "0.1.0"
edition = "2021"
publish = false

[dependencies]
solana-transaction-context = { version = "=3.1.14", features = ["agave-unstable-api"] }
solana-instruction = "=3.5.1"
solana-sbpf = { version = "=0.13.1", default-features = false }

[dev-dependencies]
solana-rent = "=3.1.0"
