[package]
name = "oddbot"
version = "0.1.0"
edition = "2021"
publish = false

[dependencies]
ulid = "*"
serde = { version = "*", features = ["derive"] }
serde_json = "*"
tokio = { version = "*", features = ["rt-multi-thread", "macros", "time", "net", "sync"] }
futures = "*"
async-nats = "*"
axum = { version = "*", features = ["ws"] }
clap = { version = "*", features = ["derive"] }
