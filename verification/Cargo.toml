[package]
name = "rustpad_server"
version = "0.1.0"
edition = "2021"
publish = false

[dependencies]
operational-transform = { version = "=0.6.1", features = ["serde"] }
base64 = "=0.23.1"
rand = "=0.10.3"
serde = { version = "=1.0.229", features = ["derive"] }
serde_json = "=1.0.151"
tokio = { version = "=1.53.2", features = ["full"] }
axum = { version = "=0.8.9", features = ["ws"] }
axum-extra = { version = "=0.12.6", features = ["typed-header"] }
dashmap = "=6.2.1"
anyhow = "=1.0.104"
futures = "=0.3.34"
tower-http = { version = "=0.7.1", features = ["fs", "trace"] }
tracing = "=0.1.44"
tracing-subscriber = { version = "=0.3.23", features = ["env-filter"] }
clap = { version = "=4.6.7", features = ["derive"] }
openidconnect = "=4.0.1"
