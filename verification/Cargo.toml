[package]
name = "bookmark_mirror"
version = "0.1.0"
edition = "2021"
publish = false

[dependencies]
anyhow = "1"
axum = "0.8"
chrono = "0.4"
futures = "0.3"
kakasi = "*"
mongodb = "3"
regex-syntax = "0.8"
reqwest = { version = "0.12", default-features = false, features = ["json", "rustls-tls"] }
serde = { version = "1", features = ["derive"] }
serde_with = "3"
tokio = { version = "1", features = ["macros", "rt-multi-thread", "net"] }
toml = "0.8"
tracing = "0.1"
tracing-subscriber = "0.3"
