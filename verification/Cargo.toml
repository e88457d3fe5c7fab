[package]
name = "quote_extract"
version = "0.1.0"
edition = "2021"
publish = false

[dependencies]
scraper = "*"
serde_json = "*"
serde = { version = "*", features = ["derive"] }
