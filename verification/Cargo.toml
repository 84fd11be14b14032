[package]
name = "sapper"
version = "0.3.0"
edition = "2021"
publish = false

[dependencies]
serde = { version = "1", features = ["derive"] }
serde_json = "1"
chrono = "*"
tantivy = "*"
rust-stemmers = "*"
regex = "1"
uuid = { version = "1", features = ["v4"] }
walkdir = "2"
directories = "*"
discord-rich-presence = "*"
tracing = "*"
tracing-appender = "*"
tracing-subscriber = "*"
