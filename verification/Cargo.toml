[package]
name = "boids"
version = "0.1.0"
edition = "2021"
publish = false

[dependencies]
rand = "=0.9.5"
random_color = "=1.1.0"
