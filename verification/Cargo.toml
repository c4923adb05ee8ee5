[package]
name = "bloda"
version = "0.1.0"
edition = "2021"
publish = false

[dependencies]
lz4_flex = "=0.14.0"
rust-lzma = "*"
zstd = "=0.14.0"
regex = "=1.13.1"
clap = { version = "=4.6.7", features = ["derive"] }
walkdir = "=2.5.0"
