[package]
name = "nedb_engine"
version = "2.4.2"
edition = "2021"
publish = false

[dependencies]
aes-gcm = "=0.10.3"
anyhow = "=1.0.104"
# Without the feature `json`, which switches on `raw_value` of serde_json: with
# it an object with a certain key is not read as an object.
axum = { version = "=0.7.9", default-features = false, features = ["http1", "query", "tokio"] }
blake2 = "=0.10.6"
dashmap = "=6.2.1"
futures-core = "=0.3.34"
hex = "=0.4.3"
napi = { version = "=2.16.17", default-features = false, features = ["napi6"] }
napi-derive = "=2.16.13"
parking_lot = "=0.12.5"
pyo3 = { version = "=0.22.6", features = ["extension-module", "abi3-py38"] }
rayon = "=1.12.0"
serde = { version = "=1.0.229", features = ["derive"] }
serde_json = { version = "=1.0.154", features = ["float_roundtrip"] }
sha2 = "=0.10.9"
tokio = { version = "=1.54.1", features = ["rt-multi-thread", "macros", "net", "signal", "time", "sync"] }
tokio-stream = { version = "=0.1.19", features = ["sync"] }
