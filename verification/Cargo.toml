[package]
name = "cargo_px"
version = "0.1.0"
edition = "2021"
publish = false

[dependencies]
anyhow = "*"
clap = "*"
guppy = "*"
serde = { version = "*", features = ["derive"] }
serde_json = "*"
