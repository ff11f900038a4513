[package]
name = "stoolap_mvcc"
version = "0.1.0"
edition = "2021"
publish = false

[dependencies]
crc32fast = "1"
lz4_flex = "*"
rustc-hash = "2"
serde_json = "1"
chrono = { version = "0.4", default-features = false, features = ["clock", "std"] }
parking_lot = "0.12"
