[package]
name = "gaussian_splat_stream"
version = "0.1.0"
edition = "2021"
publish = false

[dependencies]
base64 = "=0.22.1"
image = { version = "=0.25.2", default-features = false, features = ["webp"] }
# the WebP decoder of image, held to a version that refuses overfull prefix codes
image-webp = "=0.1.0"
zip = { version = "=8.6.0", default-features = false, features = ["deflate"] }
serde = { version = "=1.0.229", features = ["derive"] }
serde_json = "=1.0.154"
bytemuck = { version = "=1.25.2", features = ["derive"] }
bevy = { version = "=0.19.1", default-features = false, features = ["std", "async_executor", "bevy_asset", "bevy_log", "multi_threaded", "bevy_camera", "bevy_color", "bevy_render", "bevy_core_pipeline", "bevy_window", "bevy_text", "bevy_ui", "bevy_ui_render", "bevy_gizmos", "bevy_gizmos_render", "default_font", "png"] }
bevy_args = "=4.0.0"
# the argument derive of bevy_args expands to paths of clap
clap = { version = "=4.6.7", features = ["derive"] }
bevy_panorbit_camera = { version = "=0.35.1", default-features = false }
wasm-bindgen = "=0.2.130"
web-sys = { version = "=0.3.107", features = ["Document", "Element", "History", "Location", "Window"] }
