[package]
name = "nes"
version = "0.1.0"
edition = "2021"
publish = false

[dependencies]
ndarray = "0.15"
ndarray-rand = "0.14"
rand = "0.8"
rayon = "1"
