[package]
name = "md-reader"
version = "0.1.0"
edition = "2021"
publish = false

[dependencies]
encoding_rs = "=0.8.44"
serde = { version = "=1.0.229", features = ["derive"] }
toml = "=1.1.8"
dirs = "=7.0.0"
eframe = { version = "=0.37.0", default-features = false, features = ["default_fonts", "glow", "x11"] }
egui_commonmark = "=0.26.0"
rfd = { version = "=0.17.2", default-features = false, features = ["xdg-portal"] }
image = { version = "=0.25.10", default-features = false, features = ["png"] }
