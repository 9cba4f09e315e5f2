[package]
name = "bamrescue"
version = "0.1.0"
edition = "2021"
publish = false

[dependencies]
crc = "1"
inflate = "0.4"
