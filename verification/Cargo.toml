[package]
name = "rater"
version = "0.1.2"
edition = "2021"
rust-version = "1.70.0"
publish = false

[dependencies]
dashmap = "6"
ahash = "0.8"
tracing = "0.1"
