[package]
name = "particle_playground"
version = "0.1.0"
edition = "2021"
publish = false

[dependencies]
glam = "0.28"
rand = "0.8"
bytemuck = { version = "1", features = ["derive"] }
winit = { version = "0.29", default-features = false, features = ["rwh_06", "x11"] }
egui = "0.28"
egui-winit = { version = "0.28", default-features = false }
pollster = "0.3"
env_logger = { version = "0.11", default-features = false }
