[package]
name = "bot"
version = "0.1.0"
edition = "2021"
publish = false

[dependencies]
lazy_static = "1"
pyo3 = { version = "0.20", features = ["extension-module"] }
