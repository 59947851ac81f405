[package]
name = "samplex"
version = "0.1.0"
edition = "2021"
publish = false

[dependencies]
hashbrown = "0.15"
rustworkx-core = "0.17"
thiserror = "2"
pyo3 = { version = "*", features = ["abi3-py310"] }
