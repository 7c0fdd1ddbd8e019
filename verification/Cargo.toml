[package]
name = "async_tar_rs"
version = "0.1.0"
edition = "2021"
publish = false

[dependencies]
futures-core = "=0.3.34"
pin-project = "=1.1.13"
tokio = { version = "=1.54.1", features = ["fs", "io-util", "io-std", "macros", "rt", "sync"] }
tokio-stream = "=0.1.19"
xattr = "1"
