[package]
name = "gsim"
version = "0.1.0"
edition = "2021"
publish = false

[dependencies]
itertools = "*"
nalgebra = "*"
num = "*"
indicatif = "*"

[dev-dependencies]
rand = "0.8"
