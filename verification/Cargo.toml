[package]
name = "game_library"
version = "0.1.0"
edition = "2021"
publish = false

[dependencies]
hex = "*"
mime = "*"
axum = "*"
http = "*"
serde = { version = "*", features = ["derive"] }
thiserror = "*"
tokio = { version = "*", features = ["full"] }
tower-http = { version = "*", features = ["trace"] }
tracing = "*"
tracing-appender = "*"
tracing-panic = "*"
tracing-subscriber = { version = "*", features = ["env-filter"] }
