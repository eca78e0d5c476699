[package]
name = "sonars"
version = "0.1.0"
edition = "2021"
publish = false

[dependencies]
crossbeam-queue = "=0.3.14"
once_cell = "=1.21.4"
dyn-clone = "=1.0.20"
itertools = "=0.15.0"
anyhow = "=1.0.104"
rhai = { version = "=1.27.0", features = ["f32_float", "sync"] }
bevy = { version = "=0.16.1", default-features = false, features = ["std", "bevy_log"] }
web-audio-api = { version = "=1.7.0", default-features = false }
