[package]
name = "midiprog"
version = "0.1.0"
edition = "2021"
publish = false

[dependencies]
json = "0.12"
midir = "0.9"
rustyline = "9"
regex = "1"
lazy_static = "1"
derive_more = "0.99"
