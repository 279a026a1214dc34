[package]
name = "forest_fire"
version = "0.1.0"
edition = "2021"
publish = false

[dependencies]
rand = "=0.8.8"
rand_xoshiro = "=0.6.0"
sha2 = "=0.10.9"
egui = "=0.20.1"
eframe = { version = "=0.20.1", default-features = false, features = ["default_fonts", "glow"] }
