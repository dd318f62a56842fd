[package]
name = "statboard"
version = "0.1.0"
edition = "2021"
publish = false

[dependencies]
ansi-escapes = "*"
colored = "*"
