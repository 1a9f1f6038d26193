[package]
name = "hyper_diff"
version = "0.1.0"
edition = "2021"
publish = false

[dependencies]
tinyvec = { version = "1", features = ["alloc"] }
