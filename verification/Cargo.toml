[package]
name = "bftcore"
version = "0.1.0"
edition = "2021"
publish = false

[dependencies]
blake3 = "*"
ed25519-dalek = "*"
reed-solomon-erasure = "*"
hex = "*"
tokio = { version = "*", features = ["full"] }
axum = "*"
serde = { version = "*", features = ["derive"] }
serde_json = "*"
anyhow = "*"
rand_core = { version = "*", features = ["getrandom"] }
