[package]
name = "grocery_bagger"
version = "0.1.0"
edition = "2021"
publish = false

[dependencies]
rand = "=0.8.8"
smallvec = "=1.16.4"
bevy = { version = "0.7", default-features = false, features = ["render", "bevy_winit", "x11"] }
bevy_prototype_lyon = "0.5"
bevy_rapier3d = "0.13"
bevy_tweening = "0.4"
bevy_svg = "0.7"
wasm-bindgen = "0.2"
