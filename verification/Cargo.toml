[package]
name = "mizeria"
version = "0.1.0"
edition = "2021"
publish = false

[dependencies]
time = { version = "0.3", features = ["local-offset"] }
log = "0.4"
env_logger = "0.10"
walkdir = "2"
clap = "4"
