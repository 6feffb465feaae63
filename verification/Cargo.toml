[package]
name = "pluck_engine"
version = "0.1.0"
edition = "2021"
publish = false

[dependencies]
arrow = { version = "55", default-features = false, features = ["pyarrow"] }
pyo3 = { version = "*", features = ["extension-module"] }
