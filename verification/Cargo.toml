[package]
name = "mycelium"
version = "0.1.0"
edition = "2021"
publish = false

[dependencies]
ahash = "=0.8.12"
axum = "=0.8.9"
base64 = "=0.22.1"
bincode = { version = "=2.0.1", features = ["serde"] }
bytes = "=1.12.1"
dashmap = "6"
ed25519-dalek = "=2.2.0"
fastrand = "=2.5.0"
papaya = "=0.2.5"
parking_lot = "=0.12.5"
serde = { version = "=1.0.229", features = ["derive"] }
serde_json = "=1.0.154"
sha2 = "=0.10.9"
tokio = { version = "=1.54.1", features = ["full"] }
tokio-stream = "=0.1.19"
futures-util = "=0.3.34"
tracing = "=0.1.44"
metrics = "=0.24.6"
metrics-exporter-prometheus = { version = "*", default-features = false }
reqwest = { version = "=0.12.28", default-features = false, features = ["json"] }
