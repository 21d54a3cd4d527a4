[package]
name = "cmx_rdma"
version = "0.1.0"
edition = "2021"
publish = false

[dependencies]
crc32fast = "1"
sha2 = "0.10"
hex = "0.4"
dashmap = "6"
anyhow = "1"
thiserror = "2"
clap = { version = "4", features = ["derive"] }
tokio = { version = "1", features = ["rt-multi-thread", "macros", "sync", "time", "signal"] }
tonic = "*"
serde = { version = "1", features = ["derive"] }
serde_json = "1"
toml = "*"
etcd-client = "*"
tracing = "0.1"
tracing-subscriber = { version = "0.3", features = ["env-filter", "json"] }
metrics = "*"
metrics-exporter-prometheus = "*"
parking_lot = "0.12"
libc = "0.2"
