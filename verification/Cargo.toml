[package]
name = "bitcask"
version = "0.1.0"
edition = "2021"
publish = false

[dependencies]
anyhow = "1"
bincode = { version = "2", default-features = false, features = ["std"] }
crc32fast = "1"
