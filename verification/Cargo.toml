[package]
name = "dice"
version = "0.1.0"
edition = "2021"
publish = false

[dependencies]
anyhow = "1"
chrono = { version = "0.4", default-features = false, features = ["std"] }
serde = "1"
tokio = { version = "1", default-features = false, features = ["sync"] }
