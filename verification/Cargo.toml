[package]
name = "rp"
version = "0.1.0"
edition = "2021"
publish = false

[dependencies]
ndarray = "*"
serde = { version = "1", features = ["derive"] }
serde_json = "1"
chrono = "0.4"
tokio = { version = "1", features = ["fs", "macros", "rt", "rt-multi-thread", "sync", "time"] }
tokio-util = "*"
axum = "*"
async-stream = "*"
tempfile = "3"
tracing = "*"
humantime-serde = "*"
rmcp = { version = "*", features = ["server", "transport-streamable-http-server"] }

[dev-dependencies]
uuid = { version = "1", features = ["v4"] }
