[package]
name = "market_data_cache"
version = "0.1.0"
edition = "2021"
publish = false

[dependencies]
tdigest = "0.2"
rayon = "1"
serde = { version = "1", features = ["derive"] }
serde_json = "1"
log = "0.4"
env_logger = "*"
num_cpus = "1"
