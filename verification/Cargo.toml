[package]
name = "wgpu_3dgs_editor"
version = "0.1.0"
edition = "2021"
publish = false

[dependencies]
wgpu = "=30.0.1"
glam = { version = "=0.34.1", features = ["bytemuck"] }
bytemuck = "=1.25.2"
