[package]
name = "herdr"
version = "0.1.0"
edition = "2021"
publish = false

[dependencies]
crossterm = "0.28"
notify = "8"
ratatui = "0.29"
serde_json = "1"
tracing = "0.1"
