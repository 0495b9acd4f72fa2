[package]
name = "bellwright_gold_editor"
version = "0.1.0"
edition = "2021"
publish = false

[dependencies]
oozextract = "=0.5.7"
eframe = { version = "=0.37.0", default-features = false, features = ["default_fonts", "glow", "x11"] }
rfd = { version = "=0.17.2", default-features = false, features = ["xdg-portal"] }
