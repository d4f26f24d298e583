[package]
name = "quadtree"
version = "0.1.0"
edition = "2021"
publish = false

[dependencies]
ahash = "=0.7.8"
bevy = { version = "=0.6.1", default-features = false, features = ["render", "bevy_winit", "x11"] }
darling = "=0.13.4"
rand = "=0.8.8"
