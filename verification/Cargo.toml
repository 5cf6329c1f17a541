[package]
name = "lookup"
version = "0.1.0"
edition = "2021"
publish = false

[dependencies]
indexmap = "*"
serde = "*"
toml = "*"

[dev-dependencies]
serde_json = "*"
