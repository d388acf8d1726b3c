[package]
name = "cpgc"
version = "0.1.0"
edition = "2021"
publish = false

[dependencies]
anyhow = "1"
clap = { version = "4", features = ["derive"] }
crc32fast = "1"
rayon = "1"
walkdir = "2"
wide = "0.7"
xxhash-rust = { version = "0.8", features = ["xxh3"] }
