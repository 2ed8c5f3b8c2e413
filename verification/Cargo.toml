[package]
name = "loom"
version = "0.1.0"
edition = "2021"
publish = false

[dependencies]
libc = "0.2"
mach2 = "0.7"
xxhash-rust = { version = "0.8", features = ["xxh3"] }
