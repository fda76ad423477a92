[package]
name = "ui0"
version = "0.1.0"
edition = "2021"
publish = false

[dependencies]
slotmap = "1"
smallvec = "1"
bitflags = "2"
anyhow = "1"
tokio = { version = "1", features = ["rt-multi-thread"] }
winit = "0.30"
wgpu = "*"
glyphon = "*"
taffy = "0.9"
pollster = "0.4"
bytemuck = { version = "1", features = ["derive"] }
