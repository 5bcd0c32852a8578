[package]
name = "kvs"
version = "0.1.0"
edition = "2021"
publish = false

[dependencies]
crc = "1"
clap = { version = "4", features = ["derive"] }
