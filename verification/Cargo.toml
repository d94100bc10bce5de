[package]
name = "ethrpc"
version = "0.1.0"
edition = "2021"
publish = false

[dependencies]
futures-util = "*"
reqwest = { version = "*", default-features = false }
tokio = { version = "*", features = ["rt-multi-thread", "macros"] }
tokio-tungstenite = "*"

[dev-dependencies]
serde_json = "*"
