[package]
name = "clsat"
version = "0.1.0"
edition = "2021"
publish = false

[dependencies]
fastbit = "=0.11.1"
rand = "=0.10.3"
ctrlc = "=3.5.2"
pyo3 = "=0.28.3"
