[package]
name = "read_until_slice"
version = "0.1.0"
edition = "2021"
publish = false

[dependencies]
tokio = { version = "*", features = ["io-util"] }
pin-project-lite = "*"
