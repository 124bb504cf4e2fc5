[package]
name = "egui_dock"
version = "0.1.0"
edition = "2021"
publish = false

[dependencies]
egui = { version = "*", features = ["serde"] }
serde = { version = "1", features = ["derive"] }
serde_json = "1"
