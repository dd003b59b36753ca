[package]
name = "sokoban_core"
version = "0.1.0"
edition = "2021"
publish = false

[dependencies]
bevy = { version = "0.12", default-features = false, features = ["bevy_asset"] }
bevy_tweening = { version = "0.9", default-features = false }
