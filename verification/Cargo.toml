[package]
name = "qlora"
version = "0.1.0"
edition = "2021"
publish = false

[dependencies]
fancy-regex = "*"
bytemuck = { version = "1", features = ["derive"] }
pollster = "*"
pyo3 = { version = "0.22", features = ["extension-module", "abi3-py38"] }
wgpu = "22"
