[package]
name = "nexmon"
version = "0.1.0"
edition = "2021"
publish = false

[dependencies]
clap = { version = "*", features = ["derive"] }
color-eyre = "*"
crossterm = "*"
ratatui = "*"
sysinfo = "*"
tokio = { version = "*", features = ["macros", "rt-multi-thread"] }
