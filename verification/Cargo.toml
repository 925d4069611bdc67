[package]
name = "multi_app"
version = "0.1.0"
edition = "2021"
publish = false

[dependencies]
url = "2"
psl = "2"
uuid = { version = "1", features = ["v4", "serde"] }
serde = { version = "1", features = ["derive"] }
serde_json = "1"
thiserror = "2"
anyhow = "1"
parking_lot = "0.12"
tokio = { version = "1", features = ["sync", "time", "rt", "macros"] }
tracing = "0.1"
tracing-subscriber = { version = "0.3", features = ["env-filter"] }
