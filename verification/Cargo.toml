[package]
name = "faucet"
version = "0.1.0"
edition = "2021"
publish = false

[dependencies]
anyhow = "*"
dirs = "*"
indexmap = { version = "*", features = ["serde"] }
regex = "*"
serde = { version = "*", features = ["derive"] }
serde_yaml = "*"
