[package]
name = "pack_output"
version = "0.1.0"
edition = "2021"
publish = false

[dependencies]
flate2 = "*"
crc32fast = "*"
sha1 = "*"
serde = { version = "*", features = ["derive"] }
