[package]
name = "nbf"
version = "0.1.0"
edition = "2021"
publish = false

[dependencies]
anyhow = "1"
chacha20poly1305 = "0.10"
clap = { version = "4", features = ["derive"] }
curve25519-dalek = { version = "4", features = ["digest", "rand_core"] }
ed25519-dalek = { version = "2", features = ["rand_core"] }
hex = "0.4"
hkdf = "0.12"
ml-kem = { version = "0.2", features = ["deterministic"] }
rand = "0.8"
rand_core = "0.6"
sha2 = "0.10"
snow = "0.9"
thiserror = "1"
tokio = { version = "1", features = ["rt-multi-thread", "net", "time", "sync", "macros"] }
tracing-subscriber = { version = "0.3", features = ["env-filter"] }
