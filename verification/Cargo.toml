[package]
name = "resp_codec"
version = "0.1.0"
edition = "2021"
publish = false

[dependencies]
bytes = "0.5"
num-bigint = "0.4"
linked-hash-map = "0.5"
tokio = { version = "0.2", features = ["full"] }
tokio-util = { version = "0.3", features = ["codec"] }
futures = "0.3"
