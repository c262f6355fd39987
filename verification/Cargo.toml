[package]
name = "gpusorted_map"
version = "0.1.0"
edition = "2021"
publish = false

[dependencies]
bytemuck = { version = "1", features = ["derive"] }
pollster = "0.3"
rand = "0.8"
wgpu = "0.20"
