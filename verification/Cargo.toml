[package]
name = "path_calculate"
version = "0.1.0"
edition = "2021"
publish = false

[dependencies]
path-absolutize = "*"
