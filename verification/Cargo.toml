[package]
name = "circle_pack"
version = "0.1.0"
edition = "2021"
publish = false

[dependencies]
argp = "*"
fastrand = "*"
image = "*"
