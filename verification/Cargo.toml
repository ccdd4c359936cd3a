[package]
name = "vex"
version = "0.3.0"
edition = "2021"
publish = false

[dependencies]
axum = "0.7"
bincode = "1"
rand = "0.8"
serde = { version = "1", features = ["derive"] }
thiserror = "1"
tokio = { version = "1", features = ["macros", "rt-multi-thread", "net", "sync"] }
tracing = "0.1"
tracing-subscriber = { version = "0.3", features = ["env-filter"] }
