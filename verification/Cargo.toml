[package]
name = "vertebrae"
version = "0.1.0"
edition = "2021"
publish = false

[dependencies]
notify = "*"
ron = "*"
serde = { version = "*", features = ["derive"] }
tokio = { version = "*", features = ["full"] }
tokio-util = "*"
tracing = "*"
tracing-subscriber = "*"
