[package]
name = "audio_visualizer"
version = "0.1.0"
edition = "2021"
publish = false

[dependencies]
anyhow = "1"
cpal = "*"
pipewire = "0.9"
rustfft = "6"
serde = { version = "1", features = ["derive"] }
serde_json = "1"
