[package]
name = "xenopeltis"
version = "0.1.0"
edition = "2021"
publish = false

[dependencies]
rand = "0.8"
serde = { version = "1", features = ["derive"] }
tokio = { version = "1", features = ["full"] }
tokio-serde = { version = "*", features = ["bincode"] }
tokio-util = { version = "*", features = ["codec"] }
futures = "0.3"
anyhow = "1"
log = "0.4"
env_logger = "*"
structopt = "0.3"
