[package]
name = "inertia"
version = "0.1.0"
edition = "2021"
publish = false

[dependencies]
base32 = "=0.4.0"
blake3 = "1"
ed25519-dalek = "=1.0.1"
rand = "0.8"
hex = "0.4"
log = "0.4"
thiserror = "1"
serialport = { version = "4", default-features = false }
futures = "0.3"
tokio = { version = "1", default-features = false, features = ["rt", "time", "macros"] }
hickory-resolver = { version = "0.24", default-features = false, features = ["tokio-runtime"] }
reqwest = { version = "0.11", default-features = false, features = ["blocking"] }
bluer = { version = "0.17", default-features = false }
