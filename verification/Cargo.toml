[package]
name = "session_guard"
version = "0.1.0"
edition = "2021"
publish = false

[dependencies]
csrf = "*"
data-encoding = "2"
rand = "0.8"
uuid = "1"
serde = { version = "1", features = ["derive"] }
serde_json = "1"
tokio = { version = "1", features = ["rt-multi-thread", "macros", "time", "sync"] }
tokio-postgres = "0.7"
deadpool-postgres = "*"
tokio-util = "0.7"
