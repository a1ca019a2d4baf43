[package]
name = "prox_chat"
version = "0.1.0"
edition = "2021"
publish = false

[dependencies]
glam = "*"
lazy_static = "1"
