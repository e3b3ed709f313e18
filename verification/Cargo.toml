[package]
name = "sycret"
version = "0.1.0"
edition = "2021"
publish = false

[dependencies]
aes = "=0.8.4"
rand = "=0.8.8"
rayon = "=1.12.0"
arrow = { version = "=59.3.1", default-features = false }
datafusion = { version = "=55.2.0", default-features = false }
pyo3 = "=0.30.1"
