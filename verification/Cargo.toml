[package]
name = "cczu_ical"
version = "0.1.0"
edition = "2021"
publish = false

[dependencies]
chrono = "=0.4.45"
icalendar = "=0.17.17"
once_cell = "=1.21.4"
regex = "=1.13.1"
reqwest = { version = "=0.13.5", default-features = false, features = ["cookies", "form"] }
scraper = "=0.29.0"
serde = { version = "=1.0.229", features = ["derive"] }
serde_json = "=1.0.154"
tokio = { version = "=1.54.1", features = ["rt", "macros"] }
uuid = { version = "=1.29.1", features = ["v3", "v4"] }
