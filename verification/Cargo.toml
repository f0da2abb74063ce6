[package]
name = "gmab_rust"
version = "0.1.0"
edition = "2021"
publish = false

[dependencies]
rand = "0.8"
rand_distr = "0.4"
pyo3 = { version = "0.23", features = ["extension-module"] }
