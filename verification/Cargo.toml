[package]
name = "lexrank_ndarray"
version = "0.1.0"
edition = "2021"
publish = false

[dependencies]
anyhow = "1"
ndarray = "0.16"
ndarray-rand = "0.15"
rayon = "1"
cblas = "*"
simsimd = "*"
wide = "0.7"
tinyvec = { version = "1", features = ["alloc"] }
serde = { version = "1", features = ["derive"] }
serde_json = "1"
memmap2 = "0.9"
safetensors = "*"
libc = "0.2"
pyo3 = "0.20"
