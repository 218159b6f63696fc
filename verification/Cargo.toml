[package]
name = "rust_state_machine"
version = "0.1.0"
edition = "2021"
publish = false

[dependencies]
ed25519-dalek = "2"
rayon = "1"
rocksdb = "0.22"
clap = { version = "4", features = ["derive"] }
tokio = { version = "1", features = ["full"] }
axum = "0.7"
libp2p = { version = "0.53", features = ["tcp", "tokio", "noise", "yamux", "gossipsub", "macros"] }
futures = "0.3"
ureq = "2"
