[package]
name = "nitroray"
version = "0.1.0"
edition = "2021"
publish = false

[dependencies]
glam = "*"
image = { version = "0.25", default-features = false, features = ["png"] }
gltf = "1"
serde = { version = "1", features = ["derive"] }
serde_json = "1"
