[package]
name = "code_heatmap"
version = "0.1.0"
edition = "2021"
publish = false

[dependencies]
anyhow = "1"
crossterm = "*"
git2 = { version = "*", default-features = false }
ratatui = "*"
