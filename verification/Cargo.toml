[package]
name = "reducers"
version = "0.3.1"
edition = "2021"
publish = false

[dependencies]
rayon = "1"
pyo3 = "0.25"
numpy = "0.25"
