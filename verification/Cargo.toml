[package]
name = "camouflage"
version = "0.1.0"
edition = "2021"
publish = false

[dependencies]
image = { version = "0.24", default-features = false, features = ["png", "jpeg", "gif", "webp", "tiff"] }
petgraph = "0.6"
egui = "0.22"
eframe = { version = "0.22", default-features = false, features = ["glow", "default_fonts"] }
