[package]
name = "snapdown"
version = "0.1.0"
edition = "2021"
publish = false

[dependencies]
similar-asserts = "=1.7.0"
