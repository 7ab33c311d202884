[package]
name = "arkel"
version = "0.1.0"
edition = "2021"
publish = false

[dependencies]
anyhow = "1"
blake3 = "1"
chacha20poly1305 = "0.10"
clap = { version = "4", default-features = false, features = ["std", "derive", "help", "usage"] }
hex = "0.4"
hkdf = "0.12"
iroh = { version = "1", default-features = false }
rand = "0.8"
reed-solomon-erasure = "6"
reqwest = { version = "0.13", default-features = false, features = ["json"] }
serde = { version = "1", features = ["derive"] }
serde_cbor = "0.11"
serde_json = "1"
sha2 = "0.10"
tokio = { version = "1", features = ["fs", "io-util", "macros", "net", "rt-multi-thread", "signal", "sync", "time"] }
toml = "0.5"
tracing = "0.1"
