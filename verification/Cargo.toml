[package]
name = "kvs"
version = "0.1.0"
edition = "2021"
publish = false

[dependencies]
dashmap = "*"
tokio = { version = "*", features = ["full"] }
bytes = "*"
clap = { version = "*", features = ["derive"] }
log = "*"
env_logger = "*"
