[package]
name = "supporter"
version = "0.1.0"
edition = "2021"
publish = false

[dependencies]
url = "*"
clap = "2"
dirs = "*"
env_logger = "*"
failure = "0.1"
log = "*"
serde = "*"
serde_derive = "*"
toml = "*"
