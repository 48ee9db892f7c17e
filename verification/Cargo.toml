[package]
name = "tproxy"
version = "0.1.0"
edition = "2021"
publish = false

[dependencies]
base64 = "*"
cookie = "*"
anyhow = "*"
log = "*"
env_logger = "*"
parking_lot = "*"
rand = "*"
rand_distr = "*"
serde = { version = "*", features = ["derive"] }
serde_json = "*"
tokio = { version = "*", features = ["rt-multi-thread", "net", "io-util", "time", "sync", "signal", "macros"] }
pnet = "*"
