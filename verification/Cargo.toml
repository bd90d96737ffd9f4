[package]
name = "tetris_block"
version = "0.1.0"
edition = "2021"
publish = false

[dependencies]
bevy = { version = "=0.7.0", default-features = false, features = ["bevy_core_pipeline", "bevy_render", "bevy_sprite", "bevy_winit", "x11"] }
lazy_static = "=1.5.1"
num_enum = { version = "=0.5.11", features = ["complex-expressions"] }
rand = "=0.8.8"
