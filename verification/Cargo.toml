[package]
name = "liquidator"
version = "0.1.0"
edition = "2021"
publish = false

[dependencies]
fuels = "0.41"
tokio = { version = "1", features = ["time"] }
