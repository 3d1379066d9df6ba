[package]
name = "f1_bot"
version = "0.1.0"
edition = "2021"
publish = false

[dependencies]
chrono = { version = "=0.4.45", features = ["serde"] }
dotenv = "=0.15.0"
log = "=0.4.35"
pretty_env_logger = "=0.5.0"
reqwest = "=0.12.28"
scraper = "=0.29.0"
serde = { version = "=1.0.229", features = ["derive"] }
serde_json = "=1.0.154"
takecell = "<0.1.2"
teloxide = "=0.17.0"
tokio = { version = "=1.54.1", features = ["macros", "rt-multi-thread", "time"] }
