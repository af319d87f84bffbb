[package]
name = "rinnd"
version = "0.1.0"
edition = "2021"
publish = false

[dependencies]
rayon = "1"
pyo3 = { version = "0.22", features = ["extension-module"] }
numpy = "0.22"
