[package]
name = "block_model"
version = "0.1.0"
edition = "2021"

[dependencies]
num = "*"
csv = "*"
serde = { version = "*", features = ["derive"] }
ndarray = "*"
