[package]
name = "rgbm"
version = "0.1.0"
edition = "2021"
publish = false

[dependencies]
ahash = "0.8"
arrow = { version = "56", features = ["pyarrow"] }
libm = "0.2"
numpy = "0.25"
pyo3 = { version = "0.25", features = ["extension-module", "abi3-py39"] }
rand = "0.8"
rayon = "1"
