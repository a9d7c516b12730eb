[package]
name = "busdump"
version = "0.1.0"
edition = "2021"
publish = false

[dependencies]
anyhow = "*"
serialport = { version = "*", default-features = false }
