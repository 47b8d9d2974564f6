[package]
name = "sweet"
version = "0.1.0"
edition = "2021"
publish = false

[dependencies]
bytemuck = { version = "1.25", features = ["derive"] }
glam = { version = "0.33", features = ["bytemuck", "serde"] }
manifold3d = "*"
pollster = "0.4"
serde = { version = "1", features = ["derive"] }
serde_json = "1"
wgpu = { version = "29", default-features = false, features = ["std", "parking_lot", "vulkan", "wgsl"] }
winit = { version = "0.30", default-features = false, features = ["rwh_06", "x11"] }
