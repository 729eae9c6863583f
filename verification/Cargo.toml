[package]
name = "dc_core"
version = "0.1.0"
edition = "2021"
publish = false

[dependencies]
blake3 = "=1.8.7"
ed25519-dalek = "=2.2.0"
getrandom = "=0.3.4"
zstd = "=0.13.4"
ciborium = "=0.2.2"
serde = { version = "=1.0.229", features = ["derive"] }
serde_json = "=1.0.154"
thiserror = "=2.0.21"
rusqlite = { version = "=0.41.1", features = ["bundled-sqlcipher-vendored-openssl"] }
tokio = { version = "=1.54.1", features = ["rt-multi-thread", "time", "sync", "macros"] }
iroh = { version = "=1.4.1", default-features = false, features = ["tls-ring"] }
