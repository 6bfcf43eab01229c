[package]
name = "lz"
version = "0.1.0"
edition = "2021"

[dependencies]
regex-lite = "0.1"
unicode-width = "0.2"
