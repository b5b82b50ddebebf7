[package]
name = "ai_guard"
version = "0.1.0"
edition = "2021"
publish = false

[dependencies]
regex = "*"
unicode-normalization = "*"
clap = { version = "*", features = ["derive"] }
