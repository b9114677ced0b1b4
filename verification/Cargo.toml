[package]
name = "lifeforms"
version = "0.1.0"
edition = "2021"
publish = false

[dependencies]
bevy = { version = "0.8", default-features = false, features = ["bevy_asset", "bevy_winit", "render", "x11"] }
bevy-inspector-egui = { version = "0.12", default-features = false }
bevy_prototype_lyon = "0.6"
rand = "0.8"
