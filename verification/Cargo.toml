[package]
name = "estm"
version = "0.1.0"
edition = "2021"
publish = false

[dependencies]
axum = { version = "0.7", features = ["ws", "macros"] }
bson = "2"
chrono = "0.4"
dotenvy = "0.15"
futures-util = "0.3"
mongodb = "3"
nanoid = "0.4"
rand = "0.8"
serde = { version = "1", features = ["derive"] }
serde_json = "1"
tokio = { version = "1", features = ["full"] }
tower-http = { version = "0.5", features = ["fs"] }
