[package]
name = "phantom_core"
version = "1.0.0"
edition = "2021"
publish = false

[dependencies]
byteorder = "1"
serde = { version = "1", features = ["derive"] }
serde_json = "1"
tokio = { version = "1", features = ["full"] }
env_logger = "0.11"
log = "0.4"
rand = "0.8"
anyhow = "1"
thiserror = "1"
