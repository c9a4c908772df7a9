[package]
name = "consensus"
version = "0.1.0"
edition = "2021"
publish = false

[dependencies]
base64 = "=0.13.1"
log = "=0.4.35"
threshold_crypto = "=0.4.0"
tokio = { version = "=1.54.1", features = ["macros", "rt", "sync"] }
