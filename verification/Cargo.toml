[package]
name = "elevator"
version = "0.1.0"
edition = "2021"
publish = false

[dependencies]
serde = { version = "1", features = ["derive"] }
serde_json = { version = "1", features = ["raw_value"] }
bincode = "1"
crossbeam-channel = "0.5"
log = "0.4"
env_logger = "*"
