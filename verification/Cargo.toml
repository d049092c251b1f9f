[package]
name = "moq_api"
version = "0.1.0"
edition = "2021"
publish = false

[dependencies]
axum = "=0.6.20"
clap = { version = "=4.6.7", features = ["derive"] }
log = "=0.4.34"
redis = { version = "=0.23.5", features = ["tokio-comp", "connection-manager"] }
reqwest = { version = "=0.11.27", default-features = false, features = ["json"] }
serde = { version = "=1.0.229", features = ["derive"] }
serde_json = "=1.0.151"
serde_yaml = "=0.9.34"
thiserror = "=1.0.69"
url = { version = "=2.5.8", features = ["serde"] }
