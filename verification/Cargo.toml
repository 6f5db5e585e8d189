[package]
name = "xonlist"
version = "0.1.0"
edition = "2021"
publish = false

[dependencies]
regex = "1"
png = "*"
ab_glyph = "*"
anyhow = "1"
askama = "*"
axum = "0.8"
chrono = "*"
maxminddb = "*"
parking_lot = "*"
reqwest = { version = "0.12", default-features = false, features = ["rustls-tls"] }
rusqlite = { version = "*", features = ["bundled"] }
serde = { version = "1", features = ["derive"] }
serde_json = "1"
tokio = { version = "1", features = ["full"] }
tower-http = { version = "*", features = ["trace"] }
tracing = "0.1"
tracing-subscriber = "0.3"
