[package]
name = "workflowd"
version = "0.1.0"
edition = "2021"
publish = false

[dependencies]
base64 = "0.22"
rand_core = { version = "0.6", features = ["getrandom"] }
serde = { version = "1", features = ["derive"] }
serde_json = "1"
axum = "0.7"
tokio = { version = "1", features = ["rt-multi-thread", "macros", "sync", "net"] }
tracing = "0.1"
rusqlite = { version = "0.32", features = ["bundled"] }
