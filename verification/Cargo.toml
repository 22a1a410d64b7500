[package]
name = "nerdle_solver"
version = "0.1.0"
edition = "2021"
publish = false

[dependencies]
num-rational = "*"
num-traits = "*"
rand = "*"
rayon = "*"
