[package]
name = "collections"
version = "0.1.0"
edition = "2021"
publish = false

[dependencies]
num = { version = "0.4", default-features = false }
serde = { version = "1", features = ["derive"] }
