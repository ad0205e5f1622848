[package]
name = "ringmpsc"
version = "0.1.0"
edition = "2021"
publish = false

[dependencies]
futures-core = "0.3"
futures-sink = "0.3"
pin-project-lite = "0.2"
thiserror = "1"
tokio = { version = "1", features = ["sync", "time"] }
tokio-stream = "0.1"
