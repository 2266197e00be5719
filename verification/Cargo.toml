[package]
name = "constraint_grid"
version = "0.1.0"
edition = "2021"
publish = false

[dependencies]
rand = "0.7"
bit-vec = "0.6"
itertools = "0.10"
array2d = "0.3"
