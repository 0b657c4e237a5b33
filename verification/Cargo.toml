[package]
name = "faucet"
version = "0.1.0"
edition = "2021"
publish = false

[dependencies]
deadqueue = { version = "=0.2.5", default-features = false, features = ["limited"] }
tokio = { version = "=1.54.1", features = ["sync", "macros"] }
tokio-util = "=0.7.20"
tracing = "=0.1.44"
