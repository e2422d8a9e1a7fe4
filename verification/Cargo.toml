[package]
name = "tiempodb"
version = "0.1.0"
edition = "2021"
publish = false

[dependencies]
anyhow = "1"
crc32fast = "1"
crossbeam = "0.8"
env_logger = "*"
fail = { version = "0.5", features = ["failpoints"] }
futures = "0.3"
hyper = { version = "0.14", features = ["full"] }
log = "0.4"
parking_lot = "0.12"
serde = { version = "1", features = ["derive"] }
serde_json = "1"
tokio = { version = "1", features = ["full"] }
url = "2"
zstd = "*"
