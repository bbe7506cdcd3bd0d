[package]
name = "dumpling"
version = "0.1.0"
edition = "2021"
publish = false

[dependencies]
sha2 = "*"
hex = "*"
cli-clipboard = "*"
dirs = "*"
toml = "*"
serde = { version = "*", features = ["derive"] }
regex = "*"
getopts = "*"
crossterm = "*"
ratatui = "*"
termsize = "*"
log = "*"
env_logger = "*"
chrono = "*"
