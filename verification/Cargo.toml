[package]
name = "news_core"
version = "0.1.0"
edition = "2021"
publish = false

[dependencies]
url = "*"
uuid = { version = "*", features = ["v4", "v5"] }
base64 = "*"
serde = { version = "*", features = ["derive"] }
serde_json = "*"
toml = "*"
chrono = "*"
rusqlite = { version = "*", features = ["bundled"] }
feed-rs = "*"
