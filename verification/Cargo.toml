[package]
name = "simple_nats"
version = "0.1.0"
edition = "2021"
publish = false

[dependencies]
bytes = "0.5"
csv = "1"
futures = "0.3"
lru-cache = "0.1"
rand = "0.7"
structopt = "0.3"
tokio = { version = "0.2", features = ["full"] }
