[package]
name = "printwatch"
version = "0.1.0"
edition = "2021"
publish = false

[dependencies]
tokio = { version = "*", features = ["sync", "rt", "rt-multi-thread", "macros", "time", "net"] }
tokio-stream = "*"
futures-util = "*"
salvo = { version = "*", features = ["websocket", "serve-static"] }
serde = { version = "*", features = ["derive"] }
serde_json = "*"
tracing = "*"
tracing-subscriber = "*"
