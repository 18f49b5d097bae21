[package]
name = "physics_engine"
version = "0.1.0"
edition = "2021"
publish = false

[dependencies]
rand = "0.8"
glam = "*"
macroquad = "*"
image = "*"
serde = { version = "1", features = ["derive"] }
serde_json = "1"
bincode = "1"
