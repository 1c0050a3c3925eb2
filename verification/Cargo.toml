[package]
name = "hrw"
version = "0.1.0"
edition = "2021"

[dev-dependencies]
ahash = "0.8"
