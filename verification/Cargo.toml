[package]
name = "prbot"
version = "0.1.0"
edition = "2021"
publish = false

[dependencies]
anyhow = "*"
chttp = "*"
clap = { version = "*", features = ["derive", "env"] }
env_logger = "*"
log = "*"
serde = { version = "*", features = ["derive"] }
serde_json = "*"
