[package]
name = "polarisdb"
version = "0.1.0"
edition = "2021"
publish = false

[dependencies]
roaring = "*"
crc32fast = "*"
rand = "*"
