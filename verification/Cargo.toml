[package]
name = "pathtracer"
version = "0.1.0"
edition = "2021"
publish = false

[dependencies]
cgmath = "*"
image = "*"
rand = "0.8"
rayon = "*"
time = "*"
