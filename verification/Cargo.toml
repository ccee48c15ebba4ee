[package]
name = "terrain"
version = "0.1.0"
edition = "2021"
publish = false

[dependencies]
rand = "=0.10.3"
nalgebra = "=0.30.1"
ncollide3d = "=0.33.0"
