[package]
name = "file_garden"
version = "0.1.0"
edition = "2021"
publish = false

[dev-dependencies]
percent-encoding = "2"
