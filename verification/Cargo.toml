[package]
name = "vhost"
version = "0.1.0"
edition = "2021"
publish = false

[dependencies]
anyhow = "1"
lazy_static = "1"
pyo3 = "0.19"
