[package]
name = "git-server"
version = "0.1.0"
edition = "2021"
publish = false

[dependencies]
gix = { version = "=0.90.0", default-features = false, features = ["sha1"] }
sha1 = "=0.11.0"
miniz_oxide = "=0.9.1"
axum = "=0.8.9"
tokio = { version = "=1.54.1", features = ["rt-multi-thread", "macros", "net", "sync", "io-util"] }
tokio-util = { version = "=0.7.20", features = ["io"] }
tokio-stream = "=0.1.19"
bytes = "=1.12.1"
clap = { version = "=4.6.7", features = ["derive"] }
tracing = "=0.1.44"
tracing-subscriber = { version = "=0.3.23", features = ["env-filter", "json"] }
anyhow = "=1.0.104"
serde = { version = "=1.0.229", features = ["derive"] }
thiserror = "=2.0.21"
tempfile = "=3.27.0"
