[package]
name = "kafka_lag_exporter"
version = "0.1.0"
edition = "2021"
publish = false

[dependencies]
axum = "*"
chrono = "*"
ctrlc = "*"
log = "*"
prometheus = "*"
tokio = { version = "*", features = ["full"] }
tokio-util = "*"
