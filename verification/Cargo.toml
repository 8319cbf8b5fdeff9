[package]
name = "sector_updater"
version = "0.1.0"
edition = "2021"
publish = false

[dependencies]
scraper = "0.17"
zip = { version = "0.6", default-features = false, features = ["deflate"] }
reqwest = { version = "0.11", default-features = false }
serde = { version = "1", features = ["derive"] }
serde_json = "1"
tempfile = "3"
tokio = { version = "1", features = ["macros", "rt-multi-thread"] }
