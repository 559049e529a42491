[package]
name = "yawl-engine"
version = "0.1.0"
edition = "2021"
publish = false

[dependencies]
axum = "*"
blake3 = "*"
chrono = "*"
dissimilar = "*"
serde = { version = "*", features = ["derive"] }
serde_json = "*"
tokio = { version = "*", features = ["rt-multi-thread", "macros", "net"] }
toml = "*"
tower-http = { version = "*", features = ["cors", "trace"] }
tracing = "*"
tracing-subscriber = { version = "*", features = ["env-filter"] }
