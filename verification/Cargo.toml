[package]
name = "tonetheus"
version = "0.1.0"
edition = "2021"
publish = false

[dependencies]
async-std = { version = "*", features = ["attributes"] }
clap = { version = "*", features = ["derive"] }
prometheus-client = "*"
tide = "*"
