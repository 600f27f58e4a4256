[package]
name = "contrasleuth"
version = "0.1.0"
edition = "2021"
publish = false

[dependencies]
rust-crypto = "*"
blake2 = "*"
chrono = "*"
base64 = "*"
serde = { version = "*", features = ["derive"] }
serde_json = "*"
clap = { version = "*", features = ["derive"] }
