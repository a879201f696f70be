[package]
name = "code_context"
version = "0.1.0"
edition = "2021"
publish = false

[dependencies]
glob = "0.3"
anyhow = "1"
clap = { version = "4", features = ["derive"] }
dirs = "*"
env_logger = "*"
log = "0.4"
serde = { version = "1", features = ["derive"] }
toml = "*"
