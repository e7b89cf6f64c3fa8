[package]
name = "vpg"
version = "0.1.0"
edition = "2021"
publish = false

[dependencies]
oxidd = "*"
clap = { version = "*", features = ["derive"] }
log = "*"
env_logger = "*"

[dev-dependencies]
rand = "*"
