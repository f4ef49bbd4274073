[package]
name = "ton_indexer"
version = "0.1.0"
edition = "2021"
publish = false

[dependencies]
anyhow = "1"
bumpalo = "3"
countme = "3"
futures-util = "0.3"
hex = "0.4"
log = "0.4"
lru_time_cache = "0.11"
parking_lot = "0.12"
rocksdb = "0.21"
smallvec = "1"
thiserror = "1"
tokio = { version = "1", features = ["sync", "rt"] }
tracing = "0.1"
