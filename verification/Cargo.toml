[package]
name = "quoridor_policy"
version = "0.1.0"
edition = "2021"
publish = false

[dependencies]
arrow = { version = "55", default-features = false }
dashmap = "6"
parquet = { version = "55", default-features = false, features = ["arrow", "zstd"] }
rand = "0.8"
