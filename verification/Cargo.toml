[package]
name = "quanty"
version = "0.1.0"
edition = "2021"
publish = false

[dependencies]
crc32c = "0.6"
parking_lot = "0.12"
