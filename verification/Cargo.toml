[package]
name = "rit"
version = "0.1.0"
edition = "2021"
publish = false

[dependencies]
anyhow = "*"
clap = { version = "*", features = ["derive"] }
flate2 = "*"
hex = "*"
sha1 = "*"
tempfile = "*"
