[package]
name = "xcrond"
version = "0.1.0"
edition = "2021"
publish = false

[dependencies]
chrono = "0.4"
cron = "*"
ctrlc = "*"
env_logger = "*"
log = "0.4"
nix = { version = "*", features = ["process", "signal"] }
