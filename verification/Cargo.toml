[package]
name = "excalibur"
version = "0.1.0"
edition = "2021"
publish = false

[dependencies]
color-eyre = "0.6"
dirs = "5.0"
procfs = "0.17"
ratatui = "0.29"
serde = { version = "1.0", features = ["derive"] }
serde_yaml = "0.9"
sysinfo = "0.33"
tui-textarea = { version = "0.7", features = ["search"] }
