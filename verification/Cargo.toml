[package]
name = "harpia"
version = "0.1.0"
edition = "2021"
publish = false

[dependencies]
thiserror = "=2.0.21"
image = { version = "=0.25.10", default-features = false, features = ["png"] }
gltf = "=1.4.1"
glam = { version = "=0.34.2", features = ["serde"] }
bevy_ecs = "*"
ron = "*"
serde = { version = "1", features = ["derive"] }
uuid = { version = "1", features = ["v4", "serde"] }
