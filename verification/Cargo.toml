[package]
name = "ledger_core"
version = "0.1.0"
edition = "2021"
publish = false

[dependencies]
sha3 = "0.10"
hex = "0.4"
ed25519-dalek = "2"
serde = { version = "1", features = ["derive"] }
bincode = "1.3"
thiserror = "1"
tokio = { version = "1", features = ["sync", "time"] }
rand = "0.8"
