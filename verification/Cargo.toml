[package]
name = "localepick"
version = "0.1.0"
edition = "2021"
publish = false

[dependencies]
cursive = "*"
eyre = "*"
