[package]
name = "captu"
version = "0.1.0"
edition = "2021"
publish = false

[dependencies]
anyhow = "1"
askama = "0.14"
axum = "0.8"
bincode = "=1.3.3"
chrono = "=0.4.45"
encoding_rs = "=0.8.44"
glob = "=0.3.4"
png = "0.17"
serde = { version = "1", features = ["derive"] }
sqlx = { version = "0.8", default-features = false, features = ["chrono", "runtime-tokio", "sqlite"] }
tokio = { version = "1", features = ["full"] }
tokio-cron-scheduler = "0.15"
toml = "0.9"
tower-http = { version = "0.6", features = ["fs"] }
tracing = "0.1"
tracing-subscriber = { version = "0.3", features = ["env-filter"] }
unicode-normalization = "=0.1.26"
