[package]
name = "ferrex"
version = "0.1.0"
edition = "2021"
publish = false

[dependencies]
strsim = "*"
uuid = { version = "1", features = ["v4", "v7"] }
lru = "*"
rustc-hash = "2"
chrono = { version = "0.4", features = ["serde"] }
serde = { version = "1", features = ["derive"] }
serde_json = "1"
thiserror = "2"
toml = "*"
tokio = { version = "1", features = ["full"] }
tokio-util = "*"
tracing = "0.1"
tracing-subscriber = { version = "0.3", features = ["env-filter"] }
rusqlite = { version = "*", features = ["bundled"] }
deadpool = "*"
deadpool-sync = "*"
clap = { version = "4", features = ["derive", "env"] }
dirs = "*"
eyre = "*"
color-eyre = "*"
qdrant-client = "*"
rmcp = { version = "*", features = ["server", "transport-io", "macros"] }
schemars = "*"
