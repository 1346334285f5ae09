[package]
name = "rustfinder"
version = "0.1.0"
edition = "2021"
publish = false

[dependencies]
anyhow = "*"
rand = "*"
image = { version = "*", default-features = false, features = ["png", "gif"] }
