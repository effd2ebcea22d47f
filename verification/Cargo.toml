[package]
name = "pd_patch"
version = "0.1.0"
edition = "2021"
publish = false

[dependencies]
petgraph = "0.8.3"
rust-sugiyama = "0.4.0"
egui = { version = "0.37.0", default-features = false, features = ["default_fonts"] }
eframe = { version = "0.37.0", default-features = false, features = ["default_fonts", "glow", "x11"] }
emath = "0.37.0"
env_logger = { version = "0.11.11", default-features = false }
log = "0.4.35"
