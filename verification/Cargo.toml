[package]
name = "netbadb_storage"
version = "0.1.0"
edition = "2021"
publish = false

[dependencies]
crc32c = "0.6"
