[package]
name = "aegis"
version = "0.1.0"
edition = "2021"
publish = false

[dependencies]
tokenizers = { version = "0.21", default-features = false, features = ["fancy-regex"] }
serde = { version = "1", features = ["derive"] }
serde_json = "1"
rayon = "1"
memmap2 = "0.9"
num_cpus = "1"
rand = "0.8"
tokio = { version = "1", features = ["full"] }
axum = "0.8"
libp2p = { version = "0.56", features = ["gossipsub", "mdns", "noise", "tcp", "yamux", "tokio", "macros"] }
