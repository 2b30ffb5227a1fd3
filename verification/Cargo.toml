[package]
name = "rog2_pf"
version = "0.1.0"
edition = "2021"
publish = false

[dependencies]
bytemuck = { version = "=1.25.2", features = ["extern_crate_alloc"] }
cubecl = { version = "=0.10.0", default-features = false, features = ["std", "wgpu", "cuda", "hip"] }
cubek-std = { version = "=0.2.0", default-features = false }
numpy = "=0.30.0"
pyo3 = { version = "=0.30.1", features = ["abi3-py39", "extension-module"] }
thiserror = "=2.0.21"
