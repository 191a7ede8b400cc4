[package]
name = "crc_tools"
version = "0.1.0"
edition = "2021"
publish = false

[dependencies]
clap = { version = "4", features = ["derive"] }
zip = { version = "*", default-features = false }
