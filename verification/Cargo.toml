[package]
name = "ranger"
version = "0.1.0"
edition = "2021"
publish = false

[dependencies]
anyhow = "=1.0.104"
clap = "=4.6.7"
clap_complete = "=4.6.11"
complate = "=0.14.0"
git2 = "=0.21.0"
serde = { version = "=1.0.229", features = ["derive"] }
serde_yaml = "=0.9.34"
tokio = { version = "=1.53.2", features = ["rt", "rt-multi-thread", "macros"] }
uuid = { version = "=1.27.0", features = ["v4"] }
walkdir = "=2.5.0"
