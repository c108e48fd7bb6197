[package]
name = "asset_creator"
version = "0.1.0"
edition = "2021"
publish = false

[dependencies]
serde = { version = "1", features = ["derive"] }
ron = "*"
noise = "*"
image = { version = "*", default-features = false, features = ["png"] }
