[package]
name = "opacity"
version = "0.1.0"
edition = "2021"
publish = false

[dependencies]
bevy = { version = "0.16", default-features = false, features = ["bevy_sprite", "bevy_ui", "bevy_text", "bevy_pbr", "bevy_asset"] }
serde = "1"
