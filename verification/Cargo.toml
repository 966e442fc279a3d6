[package]
name = "manim_rs"
version = "0.1.0"
edition = "2021"
publish = false

[dependencies]
blake3 = "*"
ratex-katex-fonts = "*"
ratex-parser = "*"
ratex-layout = "*"
ratex-types = "*"
serde = { version = "*", features = ["derive"] }
serde_json = "*"
tempfile = "*"
png = "*"
thiserror = "*"
tracing = "*"
tracing-subscriber = { version = "*", features = ["json", "env-filter"] }
kurbo = "*"
lyon = "*"
glam = "*"
bytemuck = { version = "*", features = ["derive"] }
cosmic-text = "*"
swash = "*"
wgpu = "*"
pollster = "*"
ffmpeg-the-third = "*"
pyo3 = "*"
pythonize = "*"
