[package]
name = "rmenu"
version = "0.1.0"
edition = "2021"
publish = false

[dependencies]
ab_glyph = "0.2"
fontdb = "*"
image = { version = "*", default-features = false, features = ["png", "jpeg", "webp", "gif"] }
resvg = "*"
usvg = "*"
tiny-skia = "*"
smithay-client-toolkit = "*"
wayland-client = "*"
