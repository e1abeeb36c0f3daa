[package]
name = "aoc2024"
version = "0.1.0"
edition = "2021"
publish = false

[dependencies]
anyhow = "1"
clap = { version = "4", features = ["derive"] }
directories = "*"
once_cell = "1"
regex = "1"
reqwest = { version = "*", default-features = false, features = ["blocking", "rustls-tls"] }
