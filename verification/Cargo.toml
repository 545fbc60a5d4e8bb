[package]
name = "harvest_rs"
version = "0.1.0"
edition = "2021"

[dependencies]
aus = "*"
num-complex = "0.4"
numpy = "0.25"
pyo3 = { version = "0.25", features = ["abi3-py38", "extension-module"] }
rayon = "1"
realfft = "3"
