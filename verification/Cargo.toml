[package]
name = "jira_health_checker"
version = "0.1.0"
edition = "2021"
publish = false

[dependencies]
chrono = "*"
svg = "*"
axum = "*"
tokio = { version = "*", features = ["rt-multi-thread", "macros", "net", "time"] }
reqwest = { version = "*", default-features = false, features = ["json"] }
serde = { version = "*", features = ["derive"] }
serde_json = "*"
dotenv = "*"
