[package]
name = "matching_engine"
version = "0.1.0"
edition = "2021"
publish = false

[dependencies]
chrono = { version = "=0.4.45", features = ["serde"] }
axum = { version = "=0.7.9", features = ["ws"] }
tokio = { version = "=1.53.2", features = ["full"] }
serde = { version = "1", features = ["derive"] }
serde_json = "1"
sqlx = { version = "=0.7.4", features = ["runtime-tokio-rustls", "postgres", "chrono", "uuid"] }
uuid = { version = "=1.27.0", features = ["v4", "serde"] }
futures-util = "0.3"
tower-http = { version = "=0.5.2", features = ["cors", "trace"] }
anyhow = "1"
thiserror = "1"
dotenvy = "0.15"
tracing = "0.1"
tracing-subscriber = { version = "0.3", features = ["env-filter"] }
