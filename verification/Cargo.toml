[package]
name = "kiryuu"
version = "0.1.0"
edition = "2021"
publish = false

[dependencies]
dashmap = "=6.2.1"
ahash = "=0.8.12"
parking_lot = "=0.12.5"
actix-web = "=4.18.1"
clap = { version = "=4.6.7", features = ["derive"] }
serde = { version = "=1.0.229", features = ["derive"] }
serde_qs = "=1.1.3"
tikv-jemallocator = "=0.6.1"
tikv-jemalloc-ctl = { version = "=0.6.1", features = ["stats"] }
redis = { version = "=1.8.1", features = ["tokio-comp"] }
