[package]
name = "handle_bot_rust"
version = "0.1.0"
edition = "2021"
publish = false

[dependencies]
indicatif = "0.17"
ndarray = "=0.15.6"
ndarray-npy = "=0.8.1"
ordered-float = "=2.10.1"
pinyin = "=0.9.0"
priority-queue = "=1.4.0"
regex = "=1.13.1"
serde = { version = "=1.0.229", features = ["derive"] }
serde_json = "=1.0.154"
