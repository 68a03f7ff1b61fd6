[package]
name = "turndb"
version = "0.1.0"
edition = "2021"
publish = false

[dependencies]
anyhow = "1"
blake3 = { version = "1", features = ["pure"] }
crc32fast = "1"
libc = "0.2"
serde = { version = "1", features = ["derive"] }
serde_json = "1"
