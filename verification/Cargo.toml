[package]
name = "cinnabar"
version = "2.0.0"
edition = "2021"
publish = false

[dependencies]
anyhow = "1"
clap = { version = "4", features = ["derive"] }
cpal = "0.15"
crossbeam-channel = "0.5"
ctrlc = "3"
hound = "3"
serde = { version = "1", features = ["derive"] }
serde_json = "1"
toml = "0.8"
