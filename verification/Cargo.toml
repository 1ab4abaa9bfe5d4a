[package]
name = "neocache"
version = "0.1.0"
edition = "2021"
publish = false

[dependencies]
ahash = "0.8"
crossbeam-utils = "0.8"
hashbrown = { version = "0.14", features = ["raw"] }
rayon = "1"
serde = "1"
