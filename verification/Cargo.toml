[package]
name = "obsidible"
version = "0.1.0"
edition = "2021"
publish = false

[dependencies]
anyhow = "1"
clap = { version = "4", features = ["derive"] }
serde = { version = "1", features = ["derive"] }
serde_json = "1"
tempfile = "3"
tokio = { version = "1", features = ["process", "macros", "rt-multi-thread"] }
tracing = "0.1"
tracing-subscriber = "0.3"
zip = { version = "2", default-features = false, features = ["deflate"] }
