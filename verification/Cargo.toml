[package]
name = "rusty_notes"
version = "0.1.0"
edition = "2021"
publish = false

[dependencies]
aho-corasick = "1"
dirs = "*"
serde = { version = "1", features = ["derive"] }
serde_json = "1"
syntect = { version = "5", default-features = false, features = ["default-fancy"] }
walkdir = "2"
egui = "*"
eframe = { version = "*", default-features = false, features = ["glow", "x11", "default_fonts"] }
