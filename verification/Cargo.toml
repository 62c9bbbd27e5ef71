[package]
name = "accretion_db"
version = "0.1.0"
edition = "2021"
publish = false

[dependencies]
crc32fast = "1"
rand = "0.8"
sled = "0.34"
xxhash-rust = { version = "0.8", features = ["xxh3"] }
