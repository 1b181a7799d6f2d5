[package]
name = "envoy_http1"
version = "0.1.0"
edition = "2021"
publish = false

[dependencies]
httparse = "1"
rustix = { version = "1", features = ["time"] }
bytes = "1"
tokio = { version = "1", features = ["net", "io-util", "time", "rt", "macros"] }
thiserror = "2"
