[package]
name = "speki"
version = "0.1.0"
edition = "2021"
publish = false

[dependencies]
dirs = "=7.0.0"
sanitize-filename = "=0.6.0"
serde = { version = "=1.0.229", features = ["derive"] }
serde_json = "=1.0.151"
toml = "=1.1.7"
uuid = { version = "=1.27.0", features = ["v4", "serde"] }
walkdir = "=2.5.0"
