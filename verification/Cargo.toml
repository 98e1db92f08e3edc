[package]
name = "ferrosim"
version = "0.1.0"
edition = "2021"
publish = false

[dependencies]
rayon = "1"
wgpu = "*"
pollster = "*"
bytemuck = { version = "1", features = ["derive"] }
