[package]
name = "treebolt"
version = "0.1.0"
edition = "2021"
publish = false

[dependencies]
sqlparser = "=0.63.0"
serde = { version = "1", features = ["derive"] }
serde_json = "1"
