[package]
name = "snip"
version = "0.1.0"
edition = "2021"
publish = false

[dependencies]
anyhow = "*"
crossterm = "*"
dirs = "*"
ratatui = "*"
rusqlite = { version = "*", features = ["bundled"] }
