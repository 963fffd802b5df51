[package]
name = "fedora_update_notifier"
version = "0.1.0"
edition = "2021"
publish = false

[dependencies]
bodhi = "=2.2.0"
clap = "=4.6.7"
dirs = "=7.0.0"
notify-rust = "=4.18.2"
serde = "=1.0.229"
serde_derive = "=1.0.229"
tokio = { version = "*", features = ["rt-multi-thread"] }
toml = "=1.1.7"
