[package]
name = "cdb_rs"
version = "0.1.0"
edition = "2021"
publish = false

[dependencies]
bytes = "1"
memmap = "0.7"

[dev-dependencies]
tempfile = "3"
