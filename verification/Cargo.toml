[package]
name = "tmux_applets"
version = "0.1.0"
edition = "2021"
publish = false

[dependencies]
nix = { version = "*", features = ["feature"] }

[dev-dependencies]
colorsys = "*"
