[package]
name = "mainline"
version = "0.1.0"
edition = "2021"
publish = false

[dependencies]
bytes = "1"
flume = "0.11"
lru = "0.12"
tracing = "0.1"
sha1_smol = "1"
ed25519-dalek = "2"
rand = "0.8"
