[package]
name = "wemburs"
version = "0.1.0"
edition = "2021"
publish = false

[dependencies]
ndarray = "0.15"
numpy = "0.20"
pyo3 = { version = "0.20", features = ["extension-module"] }
statrs = "0.16"
