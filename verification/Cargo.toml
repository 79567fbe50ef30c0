[package]
name = "chat_relay"
version = "0.1.0"
edition = "2021"
publish = false

[dependencies]
serde_json = "1"
axum = { version = "0.7", features = ["ws"] }
futures = "0.3"
tokio = { version = "1", features = ["macros", "net", "rt-multi-thread", "sync"] }
