[package]
name = "w9l"
version = "0.1.0"
edition = "2021"
publish = false

[dependencies]
hexx = "*"
colored = "*"
minimax = "*"
itertools = "*"
