[package]
name = "usf"
version = "0.1.0"
edition = "2021"
publish = false

[dependencies]
zstd = "*"
xxhash-rust = { version = "*", features = ["xxh3"] }
image = { version = "*", default-features = false, features = ["png", "webp"] }
chrono = "*"
log = "*"
simplelog = "*"
