[package]
name = "nylon_engine"
version = "0.1.0"
edition = "2021"
publish = false

[dependencies]
async-trait = "0.1"
axum = { version = "=0.8.9", default-features = false }
rand = "=0.9.5"
reqwest = { version = "=0.12.28", default-features = false, features = ["json"] }
serde = { version = "1", features = ["derive"] }
serde_json = { version = "=1.0.154", features = ["float_roundtrip"] }
tonic = { version = "=0.14.9", default-features = false }
