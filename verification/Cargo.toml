[package]
name = "clip-cli"
version = "0.1.0"
edition = "2021"
publish = false

[dependencies]
anyhow = "1"
clap = { version = "4", features = ["derive"] }
ffmpeg-next = "*"
regex = "1"
rustface = "0.1"
serde = { version = "1", features = ["derive"] }
serde_json = "1"
ureq = { version = "3", features = ["json"] }
whisper-rs = "0.14"
