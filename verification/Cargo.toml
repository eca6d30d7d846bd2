[package]
name = "cache_sim"
version = "0.1.0"
edition = "2021"
publish = false

[dependencies]
anyhow = "1"
approx = "0.5"
csv = "1"
itertools = "0.10"
rand = "0.8"
serde = { version = "1", features = ["derive"] }
