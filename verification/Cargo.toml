[package]
name = "dd-rust-network-mutex"
version = "0.1.0"
edition = "2021"
publish = false

[dependencies]
axum = "=0.7.9"
futures-util = "=0.3.34"
opentelemetry = "0.24"
opentelemetry-otlp = "0.17"
opentelemetry-semantic-conventions = "0.16"
opentelemetry_sdk = { version = "0.24", features = ["rt-tokio"] }
parking_lot = "=0.12.5"
prometheus = { version = "=0.13.4", default-features = false }
rustls = { version = "=0.23.46", default-features = false, features = ["std", "tls12", "ring"] }
rustls-pemfile = "=2.2.0"
serde = { version = "=1.0.229", features = ["derive"] }
serde_json = "=1.0.154"
serde_urlencoded = "=0.7.1"
thiserror = "=1.0.69"
tokio = { version = "=1.54.1", features = ["full"] }
tokio-rustls = { version = "=0.26.6", default-features = false, features = ["tls12", "ring"] }
toml = "=0.8.23"
tracing = "=0.1.44"
tracing-opentelemetry = "0.25"
tracing-subscriber = { version = "=0.3.23", features = ["env-filter", "json"] }
uuid = { version = "=1.29.0", features = ["v4"] }
