[package]
name = "sui_logic"
version = "0.1.0"
edition = "2021"
publish = false

[dependencies]
anyhow = "1"
async-graphql = { version = "7", default-features = false }
async-stream = "0.3"
futures = "0.3"
parking_lot = "0.12"
thiserror = "1"
tokio = { version = "1", features = ["sync"] }
tracing = "0.1"
