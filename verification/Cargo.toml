[package]
name = "rig-compose"
version = "0.1.0"
edition = "2021"
publish = false

[dependencies]
serde_json = { version = "1", features = ["float_roundtrip"] }
serde = { version = "1", features = ["derive"] }
serde_yaml = "0.9"
thiserror = "2"
async-trait = "0.1"
dashmap = "6"
uuid = { version = "1", features = ["v4", "serde"] }
tracing = "0.1"
