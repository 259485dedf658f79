[package]
name = "madore"
version = "0.1.0"
edition = "2021"
publish = false

[dependencies]
anyhow = "1"
axum = "0.8"
clap = { version = "4", features = ["derive"] }
comrak = { version = "*", default-features = false }
libc = "0.2"
mime_guess = "2"
notify-debouncer-full = "*"
rust-embed = "8"
serde = { version = "1", features = ["derive"] }
tokio = { version = "1", features = ["full"] }
tokio-stream = { version = "0.1", features = ["sync"] }
webbrowser = "*"
