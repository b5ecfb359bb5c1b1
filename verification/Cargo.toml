[package]
name = "sidecar_metrics"
version = "0.1.0"
edition = "2021"
publish = false

[dependencies]
futures = "0.3"
hyper = { version = "0.14", features = ["server", "http1", "tcp"] }
tokio = { version = "1", features = ["net", "rt", "sync", "macros"] }
tracing = "0.1"
