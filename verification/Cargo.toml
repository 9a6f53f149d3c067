[package]
name = "room_gateway"
version = "0.1.0"
edition = "2021"
publish = false

[dependencies]
chrono = { version = "=0.4.45", features = ["serde"] }
serde = { version = "=1.0.229", features = ["derive"] }
axum = "=0.8.9"
socketioxide = "=0.18.7"
tokio = { version = "=1.53.2", features = ["macros", "rt-multi-thread", "net"] }
tower = "=0.5.3"
tower-http = { version = "=0.7.1", features = ["cors"] }
tracing = "=0.1.44"
tracing-subscriber = "=0.3.23"
