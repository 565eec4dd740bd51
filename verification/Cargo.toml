[package]
name = "sudoku_solver"
version = "0.1.0"
edition = "2021"
publish = false

[dependencies]
varisat = "0.2"
rand = "0.9"
eframe = { version = "0.32", default-features = false, features = ["glow", "default_fonts", "x11"] }
egui = { version = "0.32", default-features = false }
image = { version = "0.25", default-features = false, features = ["png"] }
