[package]
name = "yata-reader"
version = "0.1.0"
edition = "2021"
publish = false

[dependencies]
interprocess = "=2.4.7"
