[package]
name = "nodio"
version = "0.1.0"
edition = "2021"
publish = false

[dependencies]
eframe = { version = "=0.34.3", default-features = false, features = ["default_fonts", "glow", "wayland", "x11"] }
egui = "=0.34.3"
egui-toast = "0.20"
indexmap = "=2.14.2"
log = "0.4"
parking_lot = "0.12"
pretty_env_logger = "0.5"
serde_json = "=1.0.154"
tray-icon = { version = "=0.26.1", default-features = false, features = ["ksni"] }
uuid = { version = "=1.29.0", features = ["serde", "v4"] }
