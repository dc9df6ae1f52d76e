[package]
name = "aflak_cake"
version = "0.1.0"
edition = "2021"
publish = false

[dependencies]
fitrs = "*"
ron = "*"
serde = { version = "*", features = ["derive"] }
