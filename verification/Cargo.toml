[package]
name = "vault_manifest"
version = "0.1.0"
edition = "2021"
publish = false

[dependencies]
blake3 = "1"
base64 = "0.22"
serde = { version = "1", features = ["derive"] }
serde_json = "1"
