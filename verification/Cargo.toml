[package]
name = "mandel"
version = "0.1.0"
edition = "2021"
publish = false

[dependencies]
crossbeam = "*"
image = { version = "*", default-features = false, features = ["png"] }
