[package]
name = "egui_snarl"
version = "0.1.0"
edition = "2021"
publish = false

[dependencies]
egui = { version = "=0.33.3", default-features = false }
serde = { version = "=1.0.229", features = ["derive"] }
