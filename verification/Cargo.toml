[package]
name = "scripting_js"
version = "0.1.0"
edition = "2021"
publish = false

[dependencies]
serde_json = "1"
tokio = { version = "1", features = ["process", "io-util", "rt"] }
futures = "0.3"
