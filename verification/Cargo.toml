[package]
name = "drawing_bot"
version = "0.1.0"
edition = "2021"
publish = false

[dependencies]
image = { version = "0.24", default-features = false, features = ["png", "jpeg"] }
druid = { version = "0.8", features = ["image", "png", "jpeg"] }
rdev = "0.5"
rfd = "0.11"
