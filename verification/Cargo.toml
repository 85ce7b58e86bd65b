[package]
name = "cache_transport"
version = "0.1.0"
edition = "2021"
publish = false

[dependencies]
protobuf = "=2.28.0"
futures = "=0.3.34"
tokio = { version = "=1.54.1", features = ["net"] }
