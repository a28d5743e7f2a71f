[package]
name = "diskmapper"
version = "0.1.0"
edition = "2021"
publish = false

[dependencies]
eframe = { version = "0.29", default-features = false, features = ["default_fonts", "glow", "x11"] }
egui = "0.29"
jwalk = "0.8"
rayon = "1"
libc = "0.2"
