[package]
name = "webhookpush"
version = "0.1.0"
edition = "2021"
publish = false

[dependencies]
anyhow = "=1.0.104"
axum = "=0.7.9"
base64 = "=0.13.1"
chrono = { version = "=0.4.45", features = ["serde"] }
dotenvy = "=0.15.7"
futures-util = "=0.3.34"
http = "=1.5.0"
redb = "=2.6.4"
serde = { version = "=1.0.229", features = ["derive"] }
serde_json = "=1.0.151"
tokio = { version = "=1.53.2", features = ["full"] }
tower-http = { version = "=0.5.2", features = ["cors", "fs"] }
tracing = "=0.1.44"
tracing-subscriber = { version = "=0.3.23", features = ["env-filter"] }
uuid = { version = "=1.27.0", features = ["v4"] }
web-push = { version = "=0.9.5", default-features = false, features = ["hyper-client"] }
