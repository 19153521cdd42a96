[package]
name = "stl"
version = "0.1.0"
edition = "2021"
publish = false

[dependencies]
fast-float = "0.2"
