[package]
name = "exey_engine"
version = "0.1.0"
edition = "2021"
publish = false

[dependencies]
anyhow = "1"
bytemuck = { version = "1", features = ["derive"] }
glam = { version = "*", features = ["bytemuck"] }
image = { version = "0.25", default-features = false, features = ["png", "jpeg"] }
log = "0.4"
vulkanalia = { version = "*", features = ["libloading", "window"] }
winit = "0.30"
