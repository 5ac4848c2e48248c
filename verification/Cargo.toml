[package]
name = "cove"
version = "0.1.0"
edition = "2021"
publish = false

[dependencies]
rand = "=0.10.3"
tokio = { version = "=1.53.2", features = ["full"] }
tokio-tungstenite = "=0.30.0"
futures-util = "=0.3.34"
anyhow = "=1.0.104"
serde = { version = "=1.0.229", features = ["derive"] }
serde_json = "*"
toml = "=1.1.7"
directories = "=6.0.0"
crossterm = "=0.29.0"
rusqlite = { version = "=0.40.2", features = ["bundled"] }
