[package]
name = "spectral3d_cli"
version = "0.1.0"
edition = "2021"
publish = false

[dependencies]
anyhow = "=1.0.104"
clap = { version = "=4.6.7", features = ["derive"] }
serde_json = { version = "=1.0.154", features = ["float_roundtrip"] }
