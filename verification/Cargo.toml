[package]
name = "transform_hierarchy"
version = "0.1.0"
edition = "2021"
publish = false

[dependencies]
cgmath = { version = "*", features = ["mint"] }
mint = "*"
specs = "*"
