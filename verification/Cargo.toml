[package]
name = "sgl_interrupt"
version = "0.1.0"
edition = "2021"
publish = false

[dependencies]
parking_lot = "0.12"
pyo3 = { version = "0.22", features = ["extension-module", "abi3-py38"] }
