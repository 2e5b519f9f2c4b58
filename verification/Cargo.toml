[package]
name = "randao"
version = "0.1.0"
edition = "2021"
publish = false

[dependencies]
sp-core = "*"
