[package]
name = "renderer"
version = "0.1.0"
edition = "2021"
publish = false

[dependencies]
anyhow = "1"
font8x8 = "0.3"
pixels = "0.15"
winit = "0.30"
