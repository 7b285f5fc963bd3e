[package]
name = "kayak_core"
version = "0.1.0"
edition = "2021"
publish = false

[dependencies]
flo_binding = "2"
resources = "1"
bevy = { version = "0.9", default-features = false }
