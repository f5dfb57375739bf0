[package]
name = "termrec"
version = "0.1.0"
edition = "2021"
publish = false

[dependencies]
alacritty_terminal = "=0.26.0"
chrono = { version = "=0.4.45", features = ["serde"] }
clap = { version = "=4.6.7", features = ["derive"] }
dialoguer = { version = "=0.12.0", features = ["fuzzy-select"] }
minijinja = "=2.24.0"
serde = { version = "=1.0.229", features = ["derive"] }
serde_json = "=1.0.154"
toml = "=1.1.8"
unicode-width = "=0.2.3"
xdg = "=3.0.0"
