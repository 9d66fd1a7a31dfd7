[package]
name = "rtin_terrain"
version = "0.1.0"
edition = "2021"
publish = false

[dependencies]
bitintr = "0.3"
noise = "0.9"
