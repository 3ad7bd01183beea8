[package]
name = "image_janitor"
version = "0.1.0"
edition = "2021"
publish = false

[dependencies]
regex = "*"
glob = "*"
path-clean = "*"
walkdir = "*"
log = "*"
env_logger = "*"
clap = { version = "*", features = ["derive"] }
anyhow = "*"
