[package]
name = "rchan"
version = "0.1.0"
edition = "2021"
publish = false

[dependencies]
anyhow = "*"
colored = "*"
reqwest = { version = "*", default-features = false, features = ["blocking"] }
serde_yaml = "*"
