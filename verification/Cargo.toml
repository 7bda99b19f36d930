[package]
name = "replite"
version = "0.1.0"
edition = "2021"
publish = false

[dependencies]
anyhow = "=1.0.104"
axum = "=0.8.9"
base64 = "=0.22.1"
bytes = "=1.12.1"
futures-util = "=0.3.34"
hmac = "=0.12.1"
prost = "=0.14.4"
rand = "=0.10.3"
rusqlite = { version = "=0.40.2", features = ["bundled", "backup", "column_decltype"] }
serde = { version = "=1.0.229", features = ["derive"] }
serde_json = "=1.0.154"
sha2 = "=0.10.9"
thiserror = "=2.0.21"
tokio = { version = "=1.54.1", features = ["full"] }
tracing = "=0.1.44"
tracing-subscriber = { version = "=0.3.23", features = ["env-filter"] }
