[package]
name = "aoc_engine"
version = "0.1.0"
edition = "2021"
publish = false

[dependencies]
chrono = "0.4"
clap = { version = "4", features = ["derive"] }
reqwest = { version = "0.12", default-features = false, features = ["blocking"] }
scraper = "*"
serde = { version = "1", features = ["derive"] }
serde_json = "1"
