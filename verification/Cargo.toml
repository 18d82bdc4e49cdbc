[package]
name = "uno_core"
version = "0.1.0"
edition = "2021"
publish = false

[dependencies]
rand = "0.8"
nanoid = "0.4"
serde = { version = "1", features = ["derive"] }
serde_json = "1"
