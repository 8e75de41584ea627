[package]
name = "gaussian_integral"
version = "0.1.0"
edition = "2021"
publish = false

[dependencies]
macroquad = "0.4"
egui = "*"
egui-macroquad = "*"
