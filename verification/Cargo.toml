[package]
name = "k_nearest"
version = "0.1.0"
edition = "2021"
publish = false

[dependencies]
ndarray = "*"
serde_json = "*"
