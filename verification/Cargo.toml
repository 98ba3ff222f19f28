[package]
name = "thorust"
version = "0.1.0"
edition = "2021"
publish = false

[dependencies]
petgraph = "*"
uuid = { version = "*", features = ["v4"] }
unescape = "*"
serde = { version = "*", features = ["derive"] }
serde_json = "*"
serde_yaml = "*"
rusqlite = { version = "*", features = ["bundled", "array"] }
tokio = { version = "*", features = ["full"] }
axum = "0.6"
tower-http = { version = "0.4", features = ["add-extension", "cors", "trace"] }
clap = { version = "*", features = ["derive"] }
colored = "*"
tracing = "*"
tracing-subscriber = "*"
async-trait = "*"
anyhow = "*"
