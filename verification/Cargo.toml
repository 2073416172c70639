[package]
name = "yaku_checker"
version = "0.1.0"
edition = "2021"
publish = false

[dependencies]
anyhow = "1"
once_cell = "1"
regex = "1"
