[package]
name = "message_log"
version = "0.1.0"
edition = "2021"
publish = false

[dependencies]
tokio = { version = "*", features = ["rt-multi-thread", "macros", "fs", "net", "io-util"] }
axum = "*"
serde = { version = "*", features = ["derive"] }
chrono = "*"
sqlx = { version = "*", default-features = false, features = ["runtime-tokio", "sqlite", "chrono"] }
