[package]
name = "swim"
version = "0.1.0"
edition = "2021"
publish = false

[dependencies]
bytes = "1"
clap = "4"
colored = "2"
crossbeam = "0.8"
crossbeam-skiplist = "0.1"
futures = "0.3"
log = "0.4"
pretty_env_logger = "0.5"
rand = "0.8"
tokio = { version = "1", features = ["full"] }
tokio-util = { version = "0.7", features = ["codec"] }
