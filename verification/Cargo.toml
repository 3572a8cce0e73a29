[package]
name = "racingpost_scraper"
version = "0.1.0"
edition = "2021"
publish = false

[dependencies]
anyhow = "1"
chrono = "0.4"
chrono-tz = "*"
serde_json = "1"
tokio = { version = "1", features = ["macros", "rt-multi-thread", "time"] }
futures = "0.3"
chromiumoxide = { version = "*", default-features = false, features = ["tokio-runtime"] }
arrow = { version = "*", default-features = false }
parquet = { version = "*", default-features = false, features = ["arrow", "snap"] }
