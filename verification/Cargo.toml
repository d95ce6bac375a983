[package]
name = "mcpgw"
version = "0.1.0"
edition = "2021"
publish = false

[dependencies]
subtle = "2"
serde_json = "1"
serde = { version = "1", features = ["derive"] }
toml = "0.8"
clap = { version = "4", features = ["derive"] }
thiserror = "1"
tracing = "0.1"
tracing-subscriber = { version = "0.3", features = ["env-filter"] }
