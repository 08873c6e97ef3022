[package]
name = "zim2waj"
version = "0.1.0"
edition = "2021"
publish = false

[dependencies]
clap = { version = "*", features = ["derive"] }
dropout = "*"
env_logger = "*"
indicatif = "*"
indicatif-log-bridge = "*"
log = "*"
mime_guess = "*"
rand = "*"
rayon = "*"
