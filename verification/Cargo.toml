[package]
name = "dweb_fabric"
version = "0.1.0"
edition = "2021"
publish = false

[dependencies]
base64 = "0.22"
blake3 = "1"
bytes = "1"
fs4 = "0.13"
hex = "0.4"
iroh = "*"
iroh-base = { version = "*", features = ["key", "relay"] }
n0-future = "*"
serde_json = "1"
thiserror = "2"
tokio = { version = "1", features = ["io-util", "macros", "rt", "sync", "time"] }
tracing = "0.1"
