[package]
name = "lztrie"
version = "0.1.0"
edition = "2021"

[dependencies]
bitbit = "*"
