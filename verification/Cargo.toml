[package]
name = "crawler"
version = "0.1.0"
edition = "2021"
publish = false

[dependencies]
axum = "=0.8.9"
governor = "=0.10.4"
reqwest = { version = "=0.13.5", default-features = false }
scraper = "=0.27.0"
serde = { version = "=1.0.229", features = ["derive"] }
serde_json = "=1.0.151"
thiserror = "=2.0.21"
tokio = { version = "=1.53.2", features = ["rt-multi-thread", "macros", "net", "time"] }
tower-http = { version = "=0.7.1", features = ["cors", "trace"] }
tracing = "=0.1.44"
tracing-subscriber = { version = "=0.3.23", features = ["env-filter"] }
url = "=2.5.8"
