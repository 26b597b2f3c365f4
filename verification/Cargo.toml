[package]
name = "snmalloc_profile"
version = "0.1.0"
edition = "2021"
publish = false

[dependencies]
anyhow = "1"
backtrace = "0.3"
flate2 = "1"
serde = { version = "1", features = ["derive"] }
serde_json = "1"
