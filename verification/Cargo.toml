[package]
name = "resp_codec"
version = "0.1.0"
edition = "2021"
publish = false

[dependencies]
atoi = "2"
bytes = "1"
clap = { version = "4", features = ["derive"] }
futures = "0.3"
log = "0.4"
pretty_env_logger = "0.5"
redis = "*"
tokio = { version = "1", features = ["full"] }
tokio-util = { version = "0.7", features = ["codec"] }
