[package]
name = "trivia_core"
version = "0.1.0"
edition = "2021"
publish = false

[dependencies]
anyhow = "1"
axum = "0.8"
chrono = { version = "0.4", features = ["serde"] }
clap = { version = "4", features = ["derive"] }
dirs = "*"
fastembed = "*"
include_dir = "0.7"
rusqlite = { version = "*", features = ["bundled"] }
schemars = "*"
serde = { version = "1", features = ["derive"] }
serde_json = "1"
serde_norway = "0.9"
sqlite-vec = "*"
tokio = { version = "1", features = ["full"] }
toml = "*"
tower-http = { version = "0.6", features = ["cors"] }
tower-mcp = "*"
uuid = { version = "1", features = ["v4"] }
zerocopy = "0.7"
