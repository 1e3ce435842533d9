[package]
name = "pw_viz"
version = "0.1.0"
edition = "2021"
publish = false

[dependencies]
eframe = { version = "0.14", features = ["persistence"] }
egui = "0.14"
egui_nodes = "=0.1.3"
log = "=0.4.34"
pipewire = "=0.4.1"
serde = { version = "=1.0.229", features = ["derive"] }
simple_logger = "=1.16.0"
