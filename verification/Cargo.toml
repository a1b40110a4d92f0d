[package]
name = "image_collage"
version = "0.1.0"
edition = "2021"
publish = false

[dependencies]
image = "*"
anyhow = "*"
clap = { version = "*", features = ["derive"] }
crossterm = "*"
ratatui = "*"
