[package]
name = "pixel_unsort"
version = "0.1.0"
edition = "2021"
publish = false

[dependencies]
image = { version = "=0.24.9", default-features = false, features = ["png", "jpeg"] }
rayon = "=1.12.0"
eframe = { version = "=0.19.0", features = ["persistence"] }
egui = "=0.19.0"
directories = "=4.0.1"
serde = { version = "=1.0.229", features = ["derive"] }
