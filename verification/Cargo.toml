[package]
name = "rustgraph"
version = "0.1.0"
edition = "2021"
publish = false

[dependencies]
bitvec = "=0.17.4"

[dev-dependencies]
num = "=0.2.1"
