[package]
name = "log_compaction"
version = "0.1.0"
edition = "2021"
publish = false

[dependencies]
async-compression = { version = "0.4", features = ["futures-io", "zstd"] }
futures = "0.3"
pin-project = "1"
tokio = { version = "1", features = ["rt"] }
tokio-stream = "0.1"
uuid = { version = "1", features = ["v4"] }
