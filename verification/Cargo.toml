[package]
name = "bytecode_cfg"
version = "0.1.0"
edition = "2021"
publish = false

[dependencies]
hex = "0.4"
petgraph = "0.6"
pyo3 = "0.22"
