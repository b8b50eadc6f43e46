[package]
name = "minimal_perfect_hash"
version = "0.1.0"
edition = "2021"
publish = false

[dependencies]
wyhash = "*"
xxhash-rust = { version = "*", features = ["xxh3"] }
serde = { version = "1", features = ["derive"] }
bincode = "1"
thiserror = "*"
rayon = "*"
