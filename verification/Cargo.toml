[package]
name = "oakum"
version = "0.1.0"
edition = "2021"
publish = false

[dependencies]
anyhow = "1"
bytemuck = { version = "1", features = ["derive"] }
clap = { version = "4", features = ["derive"] }
deref-derive = "*"
env_logger = "0.10"
glam = { version = "0.23", features = ["bytemuck"] }
hyena = "*"
log = "0.4"
noise = "0.8"
serde = { version = "1", features = ["derive"] }
thiserror = "1"
wgpu = "0.15"
winit = "0.28"
