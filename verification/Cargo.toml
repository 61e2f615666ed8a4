[package]
name = "maimai_player"
version = "0.1.0"
edition = "2021"
publish = false

[dependencies]
clap = { version = "4", features = ["derive"] }
crossterm = "0.28"
image = { version = "0.25", default-features = false, features = ["png", "jpeg"] }
rodio = { version = "0.20", default-features = false, features = ["symphonia-mp3"] }
