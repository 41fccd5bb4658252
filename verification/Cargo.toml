[package]
name = "helmls"
version = "0.1.0"
edition = "2021"
publish = false

[dependencies]
regex = "1"
tower-lsp = "0.17"
lsp-types = "0.93"
tokio = { version = "1", features = ["full"] }
serde_yaml = "0.9"
env_logger = "0.10"
