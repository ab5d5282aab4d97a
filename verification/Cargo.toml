[package]
name = "qrqcrew_notes_daemon"
version = "0.1.0"
edition = "2021"
publish = false

[dependencies]
anyhow = "*"
base64 = "*"
chrono = "*"
clap = { version = "*", features = ["derive"] }
config = "*"
csv = "*"
futures = "*"
octocrab = "*"
reqwest = { version = "*", default-features = false, features = ["rustls-tls"] }
scraper = "*"
serde = { version = "*", features = ["derive"] }
serde_json = "*"
tokio = { version = "*", features = ["rt-multi-thread", "macros", "time", "net"] }
tracing = "*"
tracing-subscriber = { version = "*", features = ["env-filter"] }
