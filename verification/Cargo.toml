[package]
name = "message_transforms"
version = "0.1.0"
edition = "2021"
publish = false

[dependencies]
anyhow = "1"
async-trait = "0.1"
futures = "0.3"
itertools = "0.10"
serde = { version = "1", features = ["derive"] }
tokio-stream = "0.1"
