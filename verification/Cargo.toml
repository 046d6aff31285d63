[package]
name = "bond"
version = "0.1.0"
edition = "2021"
publish = false

[dependencies]
simdutf8 = "=0.1.5"
serde_json = { version = "=1.0.154", features = ["float_roundtrip"] }
rand = "=0.8.8"
rand_chacha = "=0.3.1"
