[package]
name = "timecraft"
version = "0.1.0"
edition = "2021"
publish = false

[dependencies]
anyhow = "1"
chrono = "0.4"
clap = { version = "4", features = ["derive"] }
colored = "2"
dirs = "5"
fuzzy-matcher = "0.3"
rand = "0.8"
