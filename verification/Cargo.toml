[package]
name = "errio"
version = "0.1.0"
edition = "2021"
publish = false

[dependencies]
rand = "=0.8.8"
bevy = { version = "=0.6.1", default-features = false, features = ["render", "bevy_gltf", "bevy_winit", "png", "x11"] }
tracing-attributes = "=0.1.23"
