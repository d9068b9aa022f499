[package]
name = "wpt_interop"
version = "0.1.0"
edition = "2021"
publish = false

[dependencies]
serde_yaml = "0.9"
git2 = { version = "*", default-features = false }
pyo3 = "*"
