[package]
name = "drafftink_server"
version = "0.1.0"
edition = "2021"
publish = false

[dependencies]
mime_guess = "*"
axum = { version = "*", features = ["ws"] }
tokio = { version = "*", features = ["rt-multi-thread", "macros", "net", "sync", "time"] }
tower-http = { version = "*", features = ["cors"] }
tracing = "*"
tracing-subscriber = { version = "*", features = ["env-filter"] }
