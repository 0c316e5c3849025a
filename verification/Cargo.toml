[package]
name = "renderer"
version = "0.1.0"
edition = "2021"
publish = false

[dependencies]
font8x8 = "0.3"
winit = "0.30"
softbuffer = "0.4"
