[package]
name = "connpool"
version = "0.1.0"
edition = "2021"
publish = false

[dependencies]
ahash = "0.8"
quick_cache = "0.6"
slab = "0.4"
tokio = { version = "1", features = ["sync"] }
