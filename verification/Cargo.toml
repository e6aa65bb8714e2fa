[package]
name = "binary_heap"
version = "0.1.0"
edition = "2021"
publish = false

[dependencies]

[dev-dependencies]
proptest = { version = "1", default-features = false, features = ["std"] }
