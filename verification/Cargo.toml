[package]
name = "cchistory"
version = "0.1.0"
edition = "2021"
publish = false

[dependencies]
anyhow = "*"
chrono = "*"
clap = { version = "*", features = ["derive"] }
clap_complete = "*"
dirs = "*"
owo-colors = "*"
serde = { version = "*", features = ["derive"] }
serde_json = "*"
