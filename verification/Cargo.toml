[package]
name = "engine"
version = "0.1.0"
edition = "2021"
publish = false

[dependencies]
nalgebra = "0.32"
png = "0.17"
rand = "0.8"
rayon = "1"
