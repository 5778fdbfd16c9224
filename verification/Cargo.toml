[package]
name = "jetstreamer_plugins"
version = "0.1.0"
edition = "2021"
publish = false

[dependencies]
bincode = "1"
clickhouse = "*"
dashmap = "6"
futures-util = "0.3"
log = "0.4"
once_cell = "1"
serde = { version = "1", features = ["derive"] }
solana-sdk = "3"
solana-transaction = { version = "3", features = ["serde"] }
