[package]
name = "libbf_rs"
version = "0.1.0"
edition = "2021"

[dependencies]
colored = "*"
console = "*"
