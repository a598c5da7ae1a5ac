[package]
name = "league"
version = "0.1.0"
edition = "2021"
publish = false

[dependencies]
axum = "0.8"
axum-extra = { version = "0.10", features = ["cookie", "form"] }
chrono = { version = "0.4", features = ["serde"] }
dotenvy = "0.15"
itertools = "0.13"
maud = { version = "0.27", features = ["axum"] }
rand = "0.8"
serde = { version = "1", features = ["derive"] }
serde_json = "1"
sqlx = { version = "0.8", default-features = false, features = ["runtime-tokio", "postgres", "chrono", "json", "migrate", "derive"] }
tokio = { version = "1", features = ["full"] }
tower-http = { version = "0.6", features = ["trace"] }
tracing = "0.1"
tracing-subscriber = { version = "0.3", features = ["env-filter"] }
