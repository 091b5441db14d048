[package]
name = "prefix_store"
version = "0.1.0"
edition = "2021"
publish = false

[dependencies]
async-stream = "*"
axum = "*"
futures = "*"
tokio = { version = "1", features = ["full"] }
tracing-subscriber = "*"

[dev-dependencies]
rand = "0.8"
