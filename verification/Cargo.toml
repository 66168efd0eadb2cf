[package]
name = "browser"
version = "0.1.0"
edition = "2021"
publish = false

[dependencies]
brotli = "*"
url = "2"
fontdue = "*"
