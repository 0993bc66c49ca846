[package]
name = "jaali"
version = "0.1.0"
edition = "2021"
publish = false

[dependencies]
rayon = "=1.12.0"
pyo3 = "=0.23.5"
numpy = "=0.23.0"
