[package]
name = "tick_engine"
version = "0.1.0"
edition = "2021"
publish = false

[dependencies]
rand = "0.6"
rayon = "1"
ggez = "0.5"
simple-vector2d = "0.1"
