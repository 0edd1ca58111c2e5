[package]
name = "diskcache_rs"
version = "0.1.0"
edition = "2021"
publish = false

[dependencies]
bincode = "1"
blake3 = { version = "1", default-features = false, features = ["std", "pure"] }
bytes = "1"
dashmap = "6"
fs4 = "*"
libc = "0.2"
lz4_flex = "0.11"
memmap2 = "0.9"
parking_lot = "0.12"
serde = { version = "1", features = ["derive"] }
serde_json = "1"
tracing = "0.1"
