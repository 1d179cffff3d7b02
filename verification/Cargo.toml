[package]
name = "pist_off"
version = "0.1.0"
edition = "2021"
publish = false

[dependencies]
indextree = "4"
graphalgs = "*"
rand = "*"
bevy = { version = "0.12", default-features = false }
