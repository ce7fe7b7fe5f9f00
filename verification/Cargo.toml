[package]
name = "binary_bandwidth"
version = "0.1.0"
edition = "2021"
publish = false

[dependencies]
bandwidth = "*"
