[package]
name = "kagami"
version = "0.1.0"
edition = "2021"
publish = false

[dependencies]
anyhow = "=1.0.104"
crossbeam-channel = "=0.5.17"
eframe = { version = "=0.37.0", default-features = false, features = ["default_fonts", "wgpu", "x11"] }
gif = "=0.14.2"
image = { version = "=0.25.10", default-features = false, features = ["bmp", "gif", "jpeg", "png", "tiff", "webp"] }
lopdf = { version = "=0.46.0", default-features = false }
objc2 = "=0.6.5"
objc2-app-kit = "=0.3.2"
objc2-foundation = "=0.3.2"
rfd = "=0.17.2"
trash = "=5.2.9"
zip = { version = "=9.2.2", default-features = false, features = ["deflate"] }
