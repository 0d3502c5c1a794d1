[package]
name = "taskr"
version = "0.1.0"
edition = "2021"
publish = false

[dependencies]
anyhow = "1"
clap = { version = "4", features = ["derive"] }
dialoguer = "0.11"
regex = "1"
serde = { version = "1", features = ["derive"] }
thiserror = "1"
toml = "0.8"
