[package]
name = "demandmap"
version = "0.1.0"
edition = "2021"
publish = false

[dependencies]
allocator-api2 = "=0.2.21"
libc = "=0.2.191"
mach2 = "=0.7.0"
pyo3 = { version = "=0.30.1", features = ["extension-module", "abi3-py311"] }
ureq = "=3.5.1"
