[package]
name = "oldirs"
version = "0.1.0"
edition = "2021"
publish = false

[dependencies]
ubyte = "*"
clap = { version = "*", features = ["derive"] }
humantime = "*"
fs-err = "*"
anyhow = "*"
serde = { version = "*", features = ["derive"] }
serde_json = "*"
file-owner = "*"
owo-colors = "*"
users = "*"
