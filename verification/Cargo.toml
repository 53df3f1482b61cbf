[package]
name = "catune-solver"
version = "0.1.0"
edition = "2021"
publish = false

[dependencies]
numpy = "*"
pyo3 = { version = "*", features = ["extension-module", "abi3-py39"] }
serde = { version = "1", features = ["derive"] }
serde-wasm-bindgen = "*"
wasm-bindgen = "*"
