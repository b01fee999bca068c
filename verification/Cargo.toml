[package]
name = "task_manager"
version = "0.1.0"
edition = "2021"
publish = false

[dependencies]
serde = { version = "1", features = ["derive"] }
serde_json = "1"
sqlx = { version = "0.8", default-features = false, features = ["sqlite", "runtime-tokio", "derive", "json"] }
reqwest = { version = "0.12", default-features = false, features = ["json", "rustls-tls"] }
