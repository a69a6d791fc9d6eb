[package]
name = "rust_monster"
version = "0.1.0"
edition = "2021"
publish = false

[dependencies]
lp-modeler = "*"
