[package]
name = "fused_gpu"
version = "0.1.0"
edition = "2021"
publish = false

[dependencies]
briny = "*"
pollster = "*"
wgpu = "*"
