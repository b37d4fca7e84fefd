[package]
name = "chatroom"
version = "0.1.0"
edition = "2021"
publish = false

[dependencies]
chrono = "*"
clap = { version = "*", features = ["derive"] }
crossterm = "0.27"
ratatui = "0.26"
tokio = { version = "*", features = ["full"] }
