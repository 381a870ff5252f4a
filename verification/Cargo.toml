[package]
name = "ciallogcat"
version = "0.2.0"
edition = "2021"
publish = false

[dependencies]
regex = "1"
serde = { version = "1", features = ["derive"] }
serde_json = "1"
eframe = { version = "*", default-features = false, features = ["default_fonts", "wgpu", "x11"] }
egui_extras = { version = "*", default-features = false }
