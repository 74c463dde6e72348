[package]
name = "hey-listen"
version = "0.1.0"
edition = "2021"
publish = false

[dependencies]
anyhow = "=1.0.104"
chrono = { version = "=0.4.45", default-features = false, features = ["clock"] }
cpal = "=0.16.0"
ctrlc = "=3.5.2"
eframe = { version = "=0.35.0", default-features = false, features = ["default_fonts", "glow", "x11"] }
hound = "=3.5.1"
reqwest = { version = "=0.12.28", default-features = false, features = ["blocking", "json"] }
serde = { version = "=1.0.229", features = ["derive"] }
serde_json = "=1.0.154"
