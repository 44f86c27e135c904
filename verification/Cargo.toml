[package]
name = "jsonrpsee"
version = "0.1.0"
edition = "2021"
publish = false

[dependencies]
futures-util = "0.3"
hyper = { version = "0.14", features = ["stream"] }
serde = { version = "1", features = ["derive"] }
serde_json = "1"
