[package]
name = "voxel_world"
version = "0.1.0"
edition = "2021"
publish = false

[dependencies]
bytemuck = { version = "1", features = ["derive"] }
crossbeam-channel = "0.5"
env_logger = "0.11"
glam = "0.27"
image = { version = "0.25", default-features = false, features = ["png"] }
log = "0.4"
pollster = "0.3"
wgpu = "0.20"
winit = "0.30"
