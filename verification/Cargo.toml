[package]
name = "bft"
version = "0.1.0"
edition = "2021"
publish = false

[dependencies]
brush-parser = "=0.4.0"
shlex = "=2.0.1"
glob = "=0.3.4"
shellexpand = "=3.1.2"
fuzzy-matcher = "=0.3.7"
anyhow = "=1.0.104"
log = "=0.4.34"
env_logger = "=0.11.11"
serde = { version = "=1.0.229", features = ["derive"] }
serde_json = "=1.0.154"
json5 = "=1.3.3"
ctrlc = "=3.5.2"
thiserror = "=2.0.21"
fzf-wrapped = "=0.1.4"
dialoguer = { version = "=0.12.0", features = ["fuzzy-select"] }
