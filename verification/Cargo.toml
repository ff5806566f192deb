[package]
name = "kepos-tact-memory"
version = "0.1.0"
edition = "2021"
publish = false

[dependencies]
anyhow = "*"
axum = "*"
clap = { version = "*", features = ["derive"] }
rusqlite = { version = "*", features = ["bundled"] }
serde = { version = "*", features = ["derive"] }
serde_json = "*"
sha2 = "0.10.9"
thiserror = "*"
tokio = { version = "*", features = ["macros", "net", "rt-multi-thread", "signal", "time"] }
toml = "*"
tower = { version = "*", features = ["limit"] }
tracing = "*"
tracing-subscriber = { version = "*", features = ["env-filter"] }
