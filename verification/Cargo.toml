[package]
name = "nota"
version = "0.1.0"
edition = "2021"
publish = false

[dependencies]
chrono = "0.4"
uuid = { version = "1", features = ["v4"] }
serde = { version = "1", features = ["derive"] }
serde_yaml = "0.9"
colored = "2"
clap = { version = "4", features = ["derive"] }
clap_complete = "4"
git2 = { version = "0.18", default-features = false }
walkdir = "2"
ratatui = "0.26"
crossterm = "0.27"
