[package]
name = "block_approx"
version = "0.1.0"
edition = "2021"
publish = false

[dependencies]
sha2 = "*"
ndarray = "*"
ndarray-rand = "*"
wgpu = "*"
bytemuck = "*"
futures-intrusive = "*"
pollster = "*"
image = "*"
imageproc = "*"
clap = { version = "*", features = ["derive"] }
env_logger = "*"
