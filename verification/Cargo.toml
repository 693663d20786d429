[package]
name = "neat_from_scratch"
version = "0.1.0"
edition = "2021"
publish = false

[dependencies]
rand = "=0.8.8"
ndarray = "=0.15.6"
gym-rs = "*"
snake = "*"
