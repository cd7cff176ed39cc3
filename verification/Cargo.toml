[package]
name = "dep_graph_analyzer"
version = "0.1.0"
edition = "2021"
publish = false

[dependencies]
alpm = "*"
alpm-sys = "*"
rustc-hash = "*"
