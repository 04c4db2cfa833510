[package]
name = "gloom-rs"
version = "0.1.0"
edition = "2021"
publish = false

[dependencies]
gl = "0.14"
glutin = "0.29"
nalgebra-glm = "0.18"
tobj = "3.2"
