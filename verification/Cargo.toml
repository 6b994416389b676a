[package]
name = "conhash"
version = "0.1.0"
edition = "2021"
publish = false

[dependencies]
env_logger = "*"
fake = "*"
log = "*"
rand = "*"
uuid = { version = "*", features = ["v4"] }
