[package]
name = "burne"
version = "0.1.0"
edition = "2021"
publish = false

[dependencies]
percent-encoding = "*"
anyhow = "*"
clap = { version = "*", features = ["derive"] }
env_logger = "*"
log = "*"
tempfile = "*"
