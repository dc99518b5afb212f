[package]
name = "process_hits"
version = "0.1.0"
edition = "2021"
publish = false

[dependencies]
anyhow = "1"
ndarray = "*"
numpy = "*"
pyo3 = "*"
rayon = "1"
