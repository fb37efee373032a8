[package]
name = "rust_monitor"
version = "0.1.0"
edition = "2021"
publish = false

[dependencies]
serde_json = "1"
sysinfo = "0.30"
ratatui = "0.24"
crossterm = "0.27"
clap = { version = "4", features = ["derive"] }
env_logger = "0.10"
log = "0.4"
nvml-wrapper = "0.10"
