[package]
name = "unison2d"
version = "0.1.0"
edition = "2021"
publish = false

[dependencies]
log = "0.4"
serde = { version = "1", features = ["derive"] }
image = { version = "0.25", default-features = false, features = ["png", "jpeg", "gif", "bmp", "webp"] }
wasm-bindgen = "0.2"
web-sys = { version = "0.3", features = ["console"] }
android_logger = "0.14"
