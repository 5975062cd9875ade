[package]
name = "rustic_raycaster"
version = "0.1.0"
edition = "2021"
publish = false

[dependencies]
anyhow = "*"
either = "*"
image = "*"
multiarray = "*"
