[package]
name = "redis_clone"
version = "0.1.0"
edition = "2021"
publish = false

[dependencies]
bytes = "1"
lru = "0.12"
tokio = { version = "1", features = ["full"] }
tokio-util = { version = "0.7", features = ["codec"] }
futures = "0.3"
anyhow = "1"
clap = { version = "4.5", features = ["derive"] }
rand = "0.8"
serde = { version = "1", features = ["derive"] }
serde_json = "1"
tonic = "0.10"
prost = "0.12"
tracing = "0.1"
