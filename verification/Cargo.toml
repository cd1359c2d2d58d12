[package]
name = "paramex-gui"
version = "0.1.0"
edition = "2021"
publish = false

[dependencies]
eframe = { version = "*", default-features = false, features = ["glow", "default_fonts"] }
egui = "*"
egui_extras = "*"
egui-notify = "*"
egui_plot = "*"
rfd = { version = "*", default-features = false }
