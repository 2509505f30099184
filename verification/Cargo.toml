[package]
name = "rottnest"
version = "0.1.0"
edition = "2021"
publish = false

[dependencies]
divsufsort = "*"
zstd = "*"
bincode = "1"
