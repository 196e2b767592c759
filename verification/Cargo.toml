[package]
name = "looper-pedal"
version = "0.1.0"
edition = "2021"
publish = false

[dependencies]
ringbuf = "0.4"
cpal = "*"
egui = "*"
eframe = { version = "*", default-features = false, features = ["default_fonts", "glow", "x11"] }
