[package]
name = "rust_livo2"
version = "0.1.0"
edition = "2021"
publish = false

[dependencies]
nalgebra = "*"
