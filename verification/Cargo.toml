[package]
name = "transfer-core"
version = "0.1.0"
edition = "2021"
publish = false

[dependencies]
anyhow = "1"
axum = "0.8"
bytes = "1"
chrono = "0.4"
dirs = "*"
futures = "0.3"
http-body = "1"
http-body-util = "0.1"
if-addrs = "*"
qrcode = { version = "*", default-features = false }
reqwest = { version = "0.13", default-features = false, features = ["json", "stream"] }
rusqlite = { version = "*", features = ["bundled"] }
serde = { version = "1", features = ["derive"] }
serde_json = "1"
smol = "2"
socket2 = { version = "*", features = ["all"] }
tokio = { version = "1", features = ["full"] }
tokio-util = { version = "0.7", features = ["io"] }
tracing = "0.1"
tracing-appender = "0.2"
tracing-subscriber = { version = "0.3", features = ["env-filter"] }
uuid = { version = "1", features = ["v4"] }
zip = { version = "*", default-features = false }
