[package]
name = "hashline"
version = "0.6.0"
edition = "2021"
publish = false

[dependencies]
xxhash-rust = { version = "0.8", features = ["xxh32", "xxh3"] }
memchr = "2"
regex = "1"
aho-corasick = "1"
fixedbitset = "0.5"
serde = { version = "1", features = ["derive"] }
serde_json = "1"
clap = { version = "4", features = ["derive"] }
tempfile = "3"
thiserror = "2"
