[package]
name = "zeldex"
version = "0.1.0"
edition = "2021"
publish = false

[dependencies]
ansi_term = "0.12"
anyhow = "1"
serde = { version = "1", features = ["derive"] }
serde_json = "1"
tungstenite = "0.24"
unicode-width = "0.2"
zellij-tile = "0.44.0"
