[package]
name = "photo2cull"
version = "0.1.0"
edition = "2021"
publish = false

[dependencies]
anyhow = "=1.0.104"
eframe = { version = "=0.37.0", default-features = false, features = ["glow", "default_fonts", "x11"] }
egui = { version = "=0.37.0", default-features = false }
image = { version = "=0.25.10", default-features = false, features = ["png", "jpeg", "tiff", "bmp", "webp"] }
imageproc = { version = "=0.27.0", default-features = false }
ndarray = "=0.17.2"
rawler = "=0.8.0"
rayon = "=1.12.0"
rfd = { version = "=0.17.2", default-features = false, features = ["xdg-portal"] }
tract = { version = "=0.23.9", default-features = false, features = ["onnx"] }
walkdir = "=2.5.0"
