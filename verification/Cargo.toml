[package]
name = "bukagu"
version = "0.1.0"
edition = "2021"
publish = false

[dependencies]
age = "0.11"
anyhow = "1"
blake3 = { version = "1", features = ["pure"] }
clap = { version = "4", features = ["derive"] }
dirs = "6"
dotenvy = "0.15"
flate2 = "1"
ratatui = "0.29"
rpassword = "7"
serde = { version = "1", features = ["derive"] }
serde_json = "1"
tar = "0.4"
tokio = { version = "1", features = ["macros", "rt-multi-thread"] }
ureq = "2"
walkdir = "2"
