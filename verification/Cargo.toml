[package]
name = "myoso"
version = "0.1.0"
edition = "2021"
publish = false

[dependencies]
anyhow = "1"
chrono = { version = "0.4", features = ["serde"] }
clap = { version = "4", features = ["derive"] }
directories = "*"
rand = "*"
rusqlite = { version = "*", features = ["bundled"] }
serde = { version = "1", features = ["derive"] }
serde_json = "1"
uuid = { version = "1", features = ["v4"] }
ratatui = "*"
crossterm = "*"
pulldown-cmark = "*"
syntect = { version = "5", default-features = false, features = ["default-fancy"] }
edit = "*"
open = "*"
