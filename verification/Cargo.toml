[package]
name = "x-planets-core"
version = "0.1.0"
edition = "2021"
publish = false

[dependencies]
bytemuck = { version = "1", features = ["derive"] }
glam = { version = "0.29", features = ["bytemuck"] }
log = "0.4"
wgpu = { version = "23", default-features = false, features = ["wgsl"] }
