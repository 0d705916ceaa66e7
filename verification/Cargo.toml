[package]
name = "rezip"
version = "0.1.0"
edition = "2021"
publish = false

[dependencies]
anyhow = "1"
byteorder = "1"
clap = { version = "4", features = ["derive"] }
crc = "1"
flate2 = "1"
sha2 = "0.8"
