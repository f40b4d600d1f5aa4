[package]
name = "conban"
version = "0.1.0"
edition = "2021"
publish = false

[dependencies]
crossterm = "0.17"
dirs = "2"
easycurses = "0.12"
serde = { version = "1", features = ["derive"] }
serde_json = "1"
tui = { version = "0.9", default-features = false, features = ["crossterm"] }
