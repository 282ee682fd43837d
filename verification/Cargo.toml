[package]
name = "crc32c_hw"
version = "0.1.0"
edition = "2021"
publish = false

[dependencies]
byteorder = "1"

[dev-dependencies]
rand = "0.8"
