[package]
name = "parlay"
version = "0.1.0"
edition = "2021"
publish = false

[dependencies]
rayon = "=1.12.0"
num-traits = "=0.2.19"
