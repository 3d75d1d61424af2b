[package]
name = "wsl2hosts"
version = "0.1.0"
edition = "2021"
publish = false

[dependencies]
chrono = "=0.4.45"
clap = { version = "=4.6.7", features = ["derive"] }
flexi_logger = "=0.31.10"
log = "=0.4.35"
path-slash = "=0.2.1"
planif = "=0.2.2"
whoami = "1"
windows = { version = "=0.48.0", features = ["Win32_Foundation", "Win32_System_Com", "Win32_System_TaskScheduler", "Win32_System_Ole"] }
windows-service = "=0.8.1"
