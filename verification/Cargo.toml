[package]
name = "secret_decoder"
version = "0.1.0"
edition = "2021"
publish = false

[dependencies]
anyhow = "*"
base64 = "0.13"
serde_json = { version = "*", features = ["preserve_order"] }
serde_yaml = "*"
syntect = "*"
