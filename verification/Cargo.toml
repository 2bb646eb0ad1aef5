[package]
name = "ecta"
version = "0.1.0"
edition = "2021"
publish = false

[dependencies]
fst = "*"
itertools = "*"
petgraph = "*"
