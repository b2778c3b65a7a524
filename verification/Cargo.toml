[package]
name = "spam_filter"
version = "0.1.0"
edition = "2021"
publish = false

[dependencies]
rust-stemmers = "1.2"
csv = "1"
serde = { version = "1", features = ["derive"] }
