[package]
name = "kraken_space_program"
version = "0.1.0"
edition = "2021"
publish = false

[dependencies]
bevy = { version = "=0.18.1", default-features = false, features = ["std", "bevy_asset", "bevy_core_pipeline", "bevy_pbr", "bevy_render", "bevy_log", "bevy_ui", "bevy_text", "default_font"] }
bevy_rapier3d = { version = "=0.33.0", default-features = false, features = ["dim3"] }
mlua = { version = "=0.11.6", features = ["lua54", "vendored"] }
