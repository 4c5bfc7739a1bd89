[package]
name = "damf2joc"
version = "0.1.0"
edition = "2021"
publish = false

[dependencies]
anyhow = "1"
clap = { version = "4", features = ["derive", "env"] }
env_logger = "0.11"
hmac = "0.12"
log = "0.4"
serde = { version = "1", features = ["derive"] }
serde_yaml_ng = "0.10"
sha2 = "0.10"
