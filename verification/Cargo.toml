[package]
name = "diffier"
version = "0.3.0"
edition = "2021"
publish = false

[dependencies]
anyhow = "1"
chrono = "0.4"
clap = { version = "4", features = ["derive"] }
crossterm = "0.28"
dirs = "6"
ratatui = "0.29"
serde = { version = "1", features = ["derive"] }
serde_json = "1"
similar = { version = "2", features = ["inline"] }
syntect = { version = "5", default-features = false, features = ["default-fancy"] }
unicode-width = "0.2"
