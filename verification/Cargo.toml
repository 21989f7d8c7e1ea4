[package]
name = "htmlize"
version = "1.0.0"
edition = "2021"
publish = false

[dependencies]
entities = "1"
memchr = "2"
