[package]
name = "scandir"
version = "0.1.0"
edition = "2021"
publish = false

[dependencies]
jwalk = "*"
expanduser = "*"
pyo3 = "*"
