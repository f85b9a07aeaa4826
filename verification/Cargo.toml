[package]
name = "pathfinder"
version = "0.1.0"
edition = "2021"
publish = false

[dependencies]
image = { version = "0.25", default-features = false }
rand = "0.8"
pythagoras = "*"
gif = { version = "*", default-features = false }
