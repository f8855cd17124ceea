[package]
name = "termiplay"
version = "0.1.0"
edition = "2021"
publish = false

[dependencies]
anyhow = "1"
base64 = "0.22"
clap = { version = "4", features = ["derive"] }
crossbeam-channel = "0.5"
crossterm = "0.28"
ffmpeg-next = "7"
rodio = { version = "0.20", default-features = false }
tokio = { version = "1", features = ["macros", "rt-multi-thread"] }
