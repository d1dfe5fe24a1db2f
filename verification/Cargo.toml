[package]
name = "updns"
version = "0.1.0"
edition = "2021"
publish = false

[dependencies]
regex = "*"
tokio = { version = "*", features = ["full"] }
dirs = "*"
