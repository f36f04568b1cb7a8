[package]
name = "cargo_depgraph"
version = "0.1.0"
edition = "2021"
publish = false

[dependencies]
anyhow = "*"
base64 = "*"
cargo_metadata = "*"
clap = "*"
