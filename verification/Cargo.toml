[package]
name = "blockchain"
version = "0.1.0"
edition = "2021"
publish = false

[dependencies]
bincode = "1"
ed25519-dalek = "1.0.1"
rand = "0.7"
rusqlite = { version = "0.31", features = ["bundled"] }
serde = { version = "1", features = ["derive"] }
serde_json = "1"
sha2 = "0.10"
