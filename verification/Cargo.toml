[package]
name = "cozzle"
version = "0.1.0"
edition = "2021"
publish = false

[dependencies]
rand = "0.8"
conrod_core = "*"
conrod_glium = "*"
conrod_winit = "*"
glium = "0.28"
