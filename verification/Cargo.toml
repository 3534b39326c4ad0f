[package]
name = "spiderweb"
version = "0.1.0"
edition = "2021"
publish = false

[dependencies]
scraper = { version = "=0.20.0", features = ["deterministic"] }
url = "=2.5.8"
image = { version = "=0.25.10", default-features = false, features = ["png", "jpeg", "gif", "webp"] }
dirs = "=5.0.1"
anyhow = "=1.0.104"
bytes = "=1.12.1"
crossterm = { version = "=0.28.1", features = ["event-stream"] }
ratatui = "=0.29.0"
reqwest = { version = "=0.12.28", default-features = false, features = ["rustls-tls", "cookies", "gzip", "brotli"] }
tokio = { version = "=1.54.1", features = ["rt-multi-thread", "macros", "sync", "time"] }
futures-util = "=0.3.34"
serde = { version = "=1.0.229", features = ["derive"] }
serde_json = "=1.0.154"
toml = "=0.8.23"
tracing = "=0.1.44"
viuer = "=0.9.2"
