[package]
name = "arc"
version = "0.1.0"
edition = "2021"
publish = false

[dependencies]
bytemuck = "=1.25.2"
rand = "=0.9.5"
rand_chacha = "=0.9.0"
bevy = { version = "=0.17.3", default-features = false, features = ["std", "bevy_asset", "bevy_color", "bevy_core_pipeline", "bevy_image", "bevy_log", "bevy_mesh", "bevy_render", "bevy_sprite", "bevy_sprite_render", "bevy_window", "bevy_dev_tools", "bevy_text", "bevy_ui", "bevy_ui_render", "default_font"] }
