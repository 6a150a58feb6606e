[package]
name = "pong_rollback"
version = "0.1.0"
edition = "2021"
publish = false

[dependencies]
bevy = { version = "0.12", default-features = false }
bevy_matchbox = "0.8"
