[package]
name = "hp_data_structures"
version = "0.1.0"
edition = "2021"
publish = false

[dependencies]
bytemuck = "1"
futures-intrusive = "0.5"
pyo3 = { version = "0.20", features = ["abi3-py38"] }
wgpu = "0.17"
