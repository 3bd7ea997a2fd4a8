[package]
name = "lsm_tree"
version = "0.1.0"
edition = "2021"
publish = false

[dependencies]
xxhash-rust = { version = "0.8", features = ["xxh3"] }
lz4_flex = "0.11"
miniz_oxide = "0.8"
tempfile = "3"
