[package]
name = "disk_analyzer"
version = "0.1.0"
edition = "2021"
publish = false

[dependencies]
eframe = { version = "0.29", default-features = false, features = ["default_fonts", "glow", "x11"] }
jwalk = "0.8"
rayon = "1"
open = "5"
serde = { version = "1", features = ["derive"] }
