[package]
name = "unladen_coconut"
version = "0.1.0"
edition = "2021"
publish = false

[dependencies]
bit-set = "*"
bytemuck = { version = "*", features = ["derive"] }
glam = { version = "*", features = ["bytemuck"] }
log = "*"
env_logger = "*"
smol = "*"
strum = "*"
strum_macros = "*"
num-traits = "*"
delegate = "*"
wgpu = "*"
winit = "*"
egui = "*"
egui-wgpu = "*"
egui-winit = { version = "*", default-features = false }
