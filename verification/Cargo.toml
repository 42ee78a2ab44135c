[package]
name = "tbgp"
version = "0.1.0"
edition = "2021"
publish = false

[dependencies]
array_tool = "*"
itertools = "*"
serde = { version = "1", features = ["derive"] }
toml = "*"
