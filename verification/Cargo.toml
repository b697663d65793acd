[package]
name = "converter"
version = "0.1.0"
edition = "2021"
publish = false

[dependencies]
base64 = "=0.23.1"
infer = "=0.22.0"
serde = { version = "=1.0.229", features = ["derive"] }
serde_json = "=1.0.154"
spex = "=0.2.2"
typed-path = "=0.13.0"
xml = "=1.4.0"
