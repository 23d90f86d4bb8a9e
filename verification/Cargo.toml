[package]
name = "conflux_logic"
version = "0.1.0"
edition = "2021"
publish = false

[dependencies]
ethereum-types = { version = "=0.9.2", default-features = false }
primitive-types = { version = "=0.7.3", default-features = false }
keccak-hash = "=0.5.1"
serde = { version = "=1.0.229", features = ["derive"] }
jsonrpc-core = "=15.1.0"
