[package]
name = "extent_lift"
version = "0.1.0"
edition = "2021"
publish = false

[dependencies]
bitflags = "2"
clap = { version = "4", features = ["derive"] }
env_logger = "0.11"
indicatif = "0.17"
log = "0.4"
serde = { version = "1", features = ["derive"] }
serde_json = "1"
