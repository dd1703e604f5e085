[package]
name = "dumbo_config"
version = "0.1.0"
edition = "2021"
publish = false

[dependencies]
config = "*"
log = "*"
serde = { version = "*", features = ["derive"] }
serde_json = "*"
serde_yaml = "*"
