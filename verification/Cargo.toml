[package]
name = "life_rust"
version = "0.1.0"
edition = "2021"
publish = false

[dependencies]
ndarray = "0.15"
rand = "0.8"
vulkano = "0.34"
vulkano-shaders = "0.34"
