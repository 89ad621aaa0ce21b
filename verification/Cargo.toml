[package]
name = "raytracer"
version = "0.1.0"
edition = "2021"
publish = false

[dependencies]
image = { version = "=0.25.10", default-features = false, features = ["png", "jpeg", "hdr"] }
glam = "=0.34.2"
bytemuck = { version = "=1.25.2", features = ["derive"] }
wgpu = { version = "=30.0.1", features = ["spirv"] }
pollster = "=1.0.1"
clap = { version = "=4.6.7", features = ["derive"] }
env_logger = "=0.11.11"
log = "=0.4.35"
rand = "=0.10.3"
rayon = "=1.12.0"
serde = { version = "=1.0.229", features = ["derive"] }
serde_json = "=1.0.154"
asset-importer = "=0.8.0"
