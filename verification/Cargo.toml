[package]
name = "quartz_core"
version = "0.1.0"
edition = "2021"
publish = false

[dependencies]
crc32fast = "1"
fst = "0.4"
memmap2 = "0.9"
pyo3 = { version = "0.23", features = ["extension-module", "abi3-py38"] }
serde = { version = "1", features = ["derive"] }
serde_json = "1"
