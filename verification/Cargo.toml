[package]
name = "runner"
version = "0.1.0"
edition = "2021"
publish = false

[dependencies]
base64 = "*"
sha1 = "*"
serde = { version = "*", features = ["derive"] }
serde_json = "*"
clap = { version = "*", features = ["derive"] }
env_logger = "*"
log = "*"
thiserror = "*"
