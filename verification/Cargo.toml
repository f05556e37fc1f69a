[package]
name = "rs1090"
version = "0.1.0"
edition = "2021"
publish = false

[dependencies]
anyhow = "1"
arrayvec = "0.7"
axum = "0.7"
bluer = { version = "0.17", features = ["bluetoothd"] }
clap = { version = "4", features = ["derive"] }
futures-util = "0.3"
hashlink = "*"
metrics = "0.24"
metrics-exporter-prometheus = { version = "0.16", default-features = false }
rustc-hash = "2"
serde = { version = "1", features = ["derive"] }
serde_json = "1"
time = { version = "0.3", features = ["formatting"] }
tokio = { version = "1", features = ["rt-multi-thread", "net", "io-util", "sync", "time", "signal", "macros"] }
tokio-stream = { version = "0.1", features = ["sync"] }
toml = "0.8"
tracing = "0.1"
