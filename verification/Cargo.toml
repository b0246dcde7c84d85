[package]
name = "poker_hands"
version = "0.1.0"
edition = "2021"
publish = false

[dependencies]
axum = "0.6"
itertools = "0.12"
lambda_http = "0.8"
rand = "0.8"
serde = { version = "1", features = ["derive"] }
serde_json = "1"
thiserror = "1"
tokio = { version = "1", features = ["macros", "rt-multi-thread"] }
tracing = "0.1"
tracing-subscriber = "0.3"
