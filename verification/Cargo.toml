[package]
name = "eruptrace"
version = "0.1.0"
edition = "2021"
publish = false

[dependencies]
image = { version = "=0.25.10", default-features = false, features = ["bmp", "dds", "exr", "ff", "gif", "hdr", "ico", "jpeg", "png", "pnm", "qoi", "tga", "tiff", "webp"] }
serde_json = "=1.0.154"
pico-args = "=0.5.0"
anyhow = "=1.0.104"
nalgebra-glm = "=0.21.0"
