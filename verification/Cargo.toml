[package]
name = "elytra"
version = "0.1.0"
edition = "2021"
publish = false

[dependencies]
sled = "0.34"
base62 = "2"
xxhash-rust = { version = "0.8", features = ["xxh64"] }
serde = { version = "1", features = ["derive"] }
