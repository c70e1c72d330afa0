[package]
name = "zone_builder"
version = "0.1.0"
edition = "2021"
publish = false

[dependencies]
toml = "*"
serde_json = "*"
clap = { version = "*", features = ["derive"] }
walkdir = "*"
