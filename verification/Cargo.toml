[package]
name = "order_analysis"
version = "0.1.0"
edition = "2021"
publish = false

[dependencies]
itertools = "0.14"
oxc_index = "*"
petgraph = "0.8"
rustc-hash = "2"
tracing = "0.1"
