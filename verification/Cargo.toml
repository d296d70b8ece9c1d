[package]
name = "fish_reader"
version = "0.1.0"
edition = "2021"
publish = false

[dependencies]
anyhow = "*"
crc32fast = "*"
home = "*"
reqwest = { version = "*", default-features = false, features = ["blocking"] }
serde = { version = "*", features = ["derive"] }
serde_json = "*"
unicode-width = "*"
walkdir = "*"
