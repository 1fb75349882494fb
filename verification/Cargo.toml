[package]
name = "zeroclaw_coordinator_mcp"
version = "0.1.4"
edition = "2021"
publish = false

[dependencies]
toml_edit = "*"
anyhow = "1"
axum = "*"
tokio = { version = "1", features = ["full"] }
serde = { version = "1", features = ["derive"] }
serde_json = "1"
tower-http = { version = "*", features = ["cors"] }
tracing = "*"
tracing-subscriber = { version = "*", features = ["env-filter"] }
futures = "*"
async-stream = "*"
walkdir = "*"
