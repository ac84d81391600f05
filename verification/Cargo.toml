[package]
name = "episode_renamer"
version = "0.1.0"
edition = "2021"
publish = false

[dependencies]
sanitize-filename = "*"
serde = { version = "*", features = ["derive"] }
serde_json = "*"
dirs = "*"
tokio-util = "*"
