[package]
name = "speedwing"
version = "0.1.0"
edition = "2021"
publish = false

[dependencies]
bevy = { version = "=0.18.1", default-features = false, features = ["std", "async_executor", "multi_threaded", "bevy_asset", "bevy_state", "bevy_window", "bevy_color", "bevy_camera", "bevy_gizmos", "bevy_gizmos_render", "bevy_image", "bevy_mesh", "bevy_shader", "bevy_text", "bevy_sprite", "bevy_render", "bevy_core_pipeline", "bevy_sprite_render", "bevy_ui", "bevy_ui_render", "keyboard", "mouse", "touch"] }
bevy_fix_cursor_unlock_web = "=0.3.0"
noise = "=0.9.0"
