[package]
name = "shapefind"
version = "0.1.0"
edition = "2021"
publish = false

[dependencies]
delta_e = "*"
image = { version = "*", default-features = false, features = ["png", "jpeg"] }
