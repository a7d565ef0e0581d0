[package]
name = "graph_reduce"
version = "0.1.0"
edition = "2021"
publish = false

[dependencies]
rustc-ap-rustc_data_structures = "=12.0.0"
