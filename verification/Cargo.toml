[package]
name = "fastlz-rs"
version = "0.0.3"
edition = "2021"
publish = false

[dependencies]
wasmi = "*"
