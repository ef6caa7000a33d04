[package]
name = "kiro_admin"
version = "0.1.0"
edition = "2021"
publish = false

[dependencies]
sha2 = "0.10"
fastrand = "2"
uuid = { version = "1", features = ["v4"] }
urlencoding = "2"
tokio = { version = "1", features = ["net", "io-util", "rt", "sync", "macros"] }
parking_lot = "0.12"
serde = { version = "1", features = ["derive"] }
serde_json = "1"
tracing = "0.1"
anyhow = "1"
