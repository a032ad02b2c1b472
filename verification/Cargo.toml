[package]
name = "record_history"
version = "0.1.0"
edition = "2021"
publish = false

[dependencies]
serde_json = { version = "=1.0.151", features = ["preserve_order"] }
glob-match = "=0.2.1"
chrono = "=0.4.45"
git2 = "=0.21.0"
clap = { version = "=4.6.7", features = ["derive"] }
indicatif = "=0.18.6"
serde = { version = "=1.0.229", features = ["derive"] }
