[package]
name = "raytracer"
version = "0.1.0"
edition = "2021"
publish = false

[dependencies]
ply-rs = "=0.1.3"
linked-hash-map = "=0.5.6"
nalgebra = "=0.33.3"
image = { version = "=0.25.10", default-features = false, features = ["png"] }
rand = "=0.9.5"
rand_distr = "=0.5.1"
