[package]
name = "core_app_web"
version = "0.1.0"
edition = "2021"
publish = false

[dependencies]
chrono = "*"
tokio = { version = "*", features = ["rt-multi-thread", "net", "io-util", "fs", "macros"] }
tracing = "*"
tracing-subscriber = "*"

[dev-dependencies]
serde_json = "*"
