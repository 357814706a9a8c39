[package]
name = "sweet"
version = "0.1.0"
edition = "2021"
publish = false

[dev-dependencies]
evdev = "0.12"
tempfile = "3"
