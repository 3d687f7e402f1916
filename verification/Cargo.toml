[package]
name = "msgstore"
version = "0.1.0"
edition = "2021"
publish = false

[dependencies]
rocksdb = "*"
chrono = "*"
clap = "*"
config = "*"
env_logger = "*"
log = "*"
tokio = { version = "*", features = ["full"] }
anyhow = "*"
