[package]
name = "dino"
version = "0.1.0"
edition = "2021"
publish = false

[dependencies]
arc-swap = "=1.9.2"
blake3 = "=1.8.7"
anyhow = "=1.0.104"
axum = "=0.8.9"
axum-extra = "=0.12.6"
indexmap = "=2.14.2"
tokio = { version = "=1.53.2", features = ["rt-multi-thread", "macros", "net", "sync"] }
serde = { version = "=1.0.229", features = ["derive"] }
serde_yml = "=0.0.13"
clap = { version = "=4.6.7", features = ["derive"] }
notify = "=8.2.0"
notify-debouncer-full = "=0.7.0"
tokio-stream = "=0.1.19"
tracing = "=0.1.44"
tracing-subscriber = "=0.3.23"
rquickjs = "=0.14.0"
glob = "=0.3.4"
