[package]
name = "kolli-desu"
version = "0.1.0"
edition = "2021"
publish = false

[dependencies]
nalgebra = "*"
image = { version = "*", default-features = false, features = ["png"] }
