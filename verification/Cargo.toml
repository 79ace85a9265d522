[package]
name = "gamepad-capture"
version = "0.1.0"
edition = "2021"
publish = false

[dependencies]
serde = { version = "1", features = ["derive"] }
serde_json = "1"
evdev = "*"
nix = { version = "*", features = ["poll"] }
eframe = { version = "*", default-features = false, features = ["default_fonts", "glow", "x11"] }
