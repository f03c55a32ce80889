[package]
name = "phase_router_rs"
version = "0.1.0"
edition = "2021"
publish = false

[dependencies]
rand = "0.8"
rand_chacha = "0.3"
rayon = "1"
pyo3 = { version = "0.20", features = ["extension-module"] }
numpy = "0.20"
