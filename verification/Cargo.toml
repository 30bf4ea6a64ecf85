[package]
name = "hindsight"
version = "0.1.0"
edition = "2021"
publish = false

[dependencies]
anyhow = "1"
chrono = "0.4"
clap = { version = "4", features = ["derive"] }
comfy-table = "7"
crossterm = "0.28"
git2 = { version = "0.19", default-features = false }
ratatui = "0.29"
walkdir = "2"
