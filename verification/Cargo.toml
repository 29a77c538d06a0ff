[package]
name = "wav_converter"
version = "0.1.0"
edition = "2021"
publish = false

[dependencies]
anyhow = "1"
eframe = { version = "0.29", default-features = false, features = ["default_fonts", "glow"] }
hound = "3.5"
rfd = { version = "0.15", default-features = false, features = ["xdg-portal", "async-std"] }
rubato = "0.15"
symphonia = { version = "0.5", features = ["all"] }
tempfile = "3"
walkdir = "2"
