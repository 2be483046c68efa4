[package]
name = "rusty_cryptography_kit"
version = "0.1.0"
edition = "2021"
publish = false

[dependencies]
anyhow = "*"
base64 = "*"
clap = { version = "*", features = ["derive"] }
clap_derive = "*"
flate2 = "*"
rand = "=0.8.5"
serde = { version = "*", features = ["derive"] }
serde_json = "*"
