[package]
name = "anubis"
version = "0.1.0"
edition = "2021"
publish = false

[dependencies]
clap = { version = "*", features = ["derive"] }
globset = "*"
serde = { version = "*", features = ["derive"] }
serde_json = "*"
tera = "*"
walkdir = "*"
