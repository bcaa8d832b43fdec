[package]
name = "rem"
version = "0.1.0"
edition = "2021"
publish = false

[dependencies]
clap = { version = "*", features = ["derive"] }
home = "*"
libnotify = "*"
notify = "*"
serde = { version = "*", features = ["derive"] }
serde_json = "*"
