[package]
name = "grbly"
version = "0.1.0"
edition = "2021"
publish = false

[dependencies]
parking_lot = "=0.12.5"
pollster = "0.4"
rfd = { version = "0.17", default-features = false, features = ["xdg-portal"] }
serialport = { version = "=4.10.1", default-features = false }
three-d = { version = "=0.18.2", features = ["egui-gui"] }
winit = "=0.28.7"
