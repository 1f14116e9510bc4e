[package]
name = "databas"
version = "0.1.0"
edition = "2021"
publish = false

[dependencies]
crc32-v2 = "*"

[dev-dependencies]
fastrand = "*"
