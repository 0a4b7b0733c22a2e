[package]
name = "treasure_hunt"
version = "0.1.0"
edition = "2021"
publish = false

[dependencies]
anyhow = "*"
axum = "*"
hex = "*"
rand = "*"
serde = { version = "*", features = ["derive"] }
serde_json = "*"
sha3 = "*"
tokio = { version = "*", features = ["macros", "rt-multi-thread", "sync", "net", "fs"] }
tracing = "*"
tracing-subscriber = "*"
