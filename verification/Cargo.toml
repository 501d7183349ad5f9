[package]
name = "engine"
version = "0.1.0"
edition = "2021"
publish = false

[dependencies]
rayon = "1"
thiserror = "1"
anyhow = "1"
clap = { version = "4", features = ["derive"] }
indicatif = "0.17"
flate2 = "1"
zstd = "0.13"
