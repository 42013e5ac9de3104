[package]
name = "evil_hangman"
version = "0.1.0"
edition = "2021"
publish = false

[dependencies]
anyhow = "1"
rand = "0.9"
rand_chacha = "0.9"
serde = { version = "1", features = ["derive"] }
toml = "*"
