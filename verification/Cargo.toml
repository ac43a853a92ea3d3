[package]
name = "auto_instance"
version = "0.1.0"
edition = "2021"
publish = false

[dependencies]
argh = "0.1"
bevy = { version = "0.14", default-features = false }
threadpool = "1.8"
