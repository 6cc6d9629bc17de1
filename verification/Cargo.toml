[package]
name = "tonlibjson_client"
version = "0.1.0"
edition = "2021"
publish = false

[dependencies]
anyhow = "1"
async-stream = "0.3"
async-trait = "0.1"
futures = "0.3"
reqwest = { version = "0.11", default-features = false }
serde = { version = "1", features = ["derive"] }
serde_json = "1"
tokio = { version = "1", features = ["sync", "time", "rt", "rt-multi-thread"] }
tokio-stream = "0.1"
tower = { version = "0.4", features = ["util", "discover", "load", "limit"] }
tracing = "0.1"
uuid = { version = "1", features = ["v4", "serde"] }
