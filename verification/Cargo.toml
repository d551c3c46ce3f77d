[package]
name = "custos_dedup"
version = "0.1.0"
edition = "2021"
publish = false

[dependencies]
blake3 = "1"
cpe = "*"
packageurl = "*"
rapidfuzz = "*"
serde = { version = "1", features = ["derive"] }
thiserror = "2"

[dev-dependencies]
serde_json = "1"
