[package]
name = "dns_templar"
version = "0.1.0"
edition = "2021"
publish = false

[dependencies]
hickory-proto = "*"
lru = "*"
serde = { version = "1", features = ["derive"] }
serde_json = "1"
toml = "*"
clap = { version = "4", features = ["derive"] }
colored = "*"
tokio = { version = "1", features = ["full"] }
tracing = "0.1"
tracing-appender = "0.2"
tracing-subscriber = { version = "0.3", features = ["env-filter", "json"] }
tract-onnx = "*"
