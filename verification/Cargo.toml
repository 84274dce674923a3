[package]
name = "prime_swing"
version = "0.1.0"
edition = "2021"
publish = false

[dependencies]
num-bigint = "=0.4.8"
num-traits = "=0.2.19"
pyo3 = { version = "=0.29.3", features = ["extension-module", "num-bigint"] }
