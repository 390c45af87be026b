[package]
name = "venx_core"
version = "0.1.0"
edition = "2021"
publish = false

[dependencies]
glam = "0.24"
bytemuck = "1"
anyhow = "1"
log = "0.4"
fastanvil = "*"
wgpu = "*"
pollster = "0.3"
futures-intrusive = "0.5"

[dev-dependencies]
rand = "0.8"
