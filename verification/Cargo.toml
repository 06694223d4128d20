[package]
name = "brass_engine"
version = "0.2.0"
edition = "2021"
publish = false

[dependencies]
wgpu = "22"
winit = "0.30"
glam = "0.29"
bytemuck = { version = "1", features = ["derive"] }
image = { version = "0.25", default-features = false, features = ["png", "jpeg"] }
pollster = "0.3"
env_logger = "0.11"
