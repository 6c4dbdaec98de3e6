[package]
name = "scriptsheet"
version = "0.1.0"
edition = "2021"
publish = false

[dependencies]
rhai = "*"
serde = { version = "*", features = ["derive"] }
ron = "*"
egui = "*"
egui_tiles = "*"
egui_table = "*"
eframe = { version = "*", default-features = false, features = ["glow", "persistence", "x11", "default_fonts"] }
