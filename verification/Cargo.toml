[package]
name = "spirit"
version = "0.1.0"
edition = "2021"
publish = false

[dependencies]
blake3 = "=1.8.7"
ed25519-dalek = "=2.2.0"
getrandom = "=0.3.4"
serde_json = "=1.0.154"

[dev-dependencies]
ciborium = "=0.2.2"
