[package]
name = "walnut"
version = "0.1.0"
edition = "2021"
publish = false

[dependencies]
anyhow = "1"
bitvec = "1"
clap = { version = "4", features = ["derive"] }
crc32fast = "1"

[dev-dependencies]
bincode = "1"
