[package]
name = "roxy"
version = "0.1.0"
edition = "2021"
publish = false

[dependencies]
redis = "*"
serde = { version = "*", features = ["derive"] }
serde_json = "*"
