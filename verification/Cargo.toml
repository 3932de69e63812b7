[package]
name = "game_bot"
version = "0.1.0"
edition = "2021"
publish = false

[dependencies]
chrono = "0.4"
image = { version = "0.25", default-features = false, features = ["png"] }
ocr-rs = { version = "*", default-features = false }
opencv = { version = "*", default-features = false, features = ["imgcodecs", "imgproc"] }
rand = "0.8"
serde = { version = "1", features = ["derive"] }
strsim = "0.11"
toml = "0.8"
