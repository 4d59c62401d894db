[package]
name = "chunkers"
version = "0.1.0"
edition = "2021"
publish = false

[dependencies]
rand = { version = "0.8", features = ["small_rng"] }
zerocopy = "0.7"
