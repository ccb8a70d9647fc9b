[package]
name = "safe_arch"
version = "0.1.0"
edition = "2021"
publish = false

[dependencies]
zerocopy = { version = "0.7", default-features = false, features = ["simd"] }
