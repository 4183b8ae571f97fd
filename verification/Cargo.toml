[package]
name = "apsis"
version = "0.1.0"
edition = "2021"
publish = false

[dependencies]
base32 = "=0.5.1"
blake2b_simd = "=1.0.5"
chacha20 = "=0.9.1"
mainline = "=8.0.1"
subtle = "=2.6.1"
serde_json = "=1.0.154"
bytes = "=1.12.1"
rand = "=0.10.3"
rand_chacha = "=0.10.0"
axum = { version = "=0.8.9", features = ["multipart", "macros"] }
tokio = { version = "=1.54.1", features = ["full"] }
tokio-util = { version = "=0.7.20", features = ["rt"] }
reqwest = { version = "=0.13.5", default-features = false, features = ["blocking"] }
rocksdb = { version = "*", default-features = false }
