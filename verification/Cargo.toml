[package]
name = "rsomhap"
version = "0.1.0"
edition = "2021"
publish = false

[dependencies]
password-auth = "1"
chrono = "0.4"
rand = "0.8"
axum = "0.7"
axum-login = "0.15"
tower-sessions = { version = "0.12", features = ["signed"] }
tower-http = { version = "0.5", features = ["fs", "trace"] }
tokio = { version = "1", features = ["full"] }
sqlx = { version = "0.7", features = ["runtime-tokio-rustls", "mysql", "chrono", "macros"] }
serde = { version = "1", features = ["derive"] }
minijinja = { version = "2", features = ["loader"] }
comrak = "*"
toml = "0.8"
thiserror = "1"
tracing = "0.1"
tracing-subscriber = "0.3"

[dev-dependencies]
regex = "1"
