[package]
name = "greentd"
version = "0.1.0"
edition = "2021"
publish = false

[dependencies]
bevy = { version = "0.19", default-features = false, features = ["std", "bevy_log", "bevy_state", "bevy_camera", "bevy_sprite", "bevy_text", "bevy_ui", "bevy_window"] }
ron = "0.12"
serde = { version = "1", features = ["derive"] }
