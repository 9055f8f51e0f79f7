[package]
name = "codexsmtui"
version = "0.1.0"
edition = "2021"
publish = false

[dependencies]
anyhow = "1"
chrono = "0.4"
crossterm = "0.28"
dirs = "6"
ratatui = "0.29"
serde_json = "1"
unicode-width = "0.2"
walkdir = "2"
