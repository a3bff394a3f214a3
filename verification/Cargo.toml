[package]
name = "voxel_world"
version = "0.1.0"
edition = "2021"
publish = false

[dependencies]
image = { version = "*", default-features = false, features = ["png"] }
anyhow = "*"
bytemuck = { version = "*", features = ["derive"] }
cgmath = "*"
env_logger = "*"
log = "*"
pollster = "*"
tobj = "*"
include_dir = "*"
wgpu = "*"
winit = "*"
