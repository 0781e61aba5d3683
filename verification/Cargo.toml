[package]
name = "ndb"
version = "0.1.0"
edition = "2021"
publish = false

[dependencies]
arc-swap = "1"
bincode = "1.3"
blake3 = "1"
crc32fast = "1"
fastrand = "2"
libc = "0.2"
memmap2 = "0.9"
serde = { version = "1", features = ["derive"] }
serde_json = "1"
thiserror = "1"
wide = "0.7"
