[package]
name = "serde_greppable"
version = "0.1.0"
edition = "2021"
publish = false

[dependencies]
serde = "=1.0.229"
serde_json = { version = "=1.0.154", features = ["preserve_order", "float_roundtrip"] }
thiserror = "=2.0.21"
